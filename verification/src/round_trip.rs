//! What is written can be read again: the records of a data file come back
//! in their order, the entries of its index come back with them, and each
//! offset in the index leads to the record it was written for.

use crate::cbor::{decode, lemma_round_trip, Scalar};
use crate::cbor_types::MajorType;
use crate::error::ErrorKind;
use crate::cbor::CborItem;
use crate::merge::{is_sorted_index, record_at};
use crate::order::SortKey;
use crate::sstable_reader::index_entries;
use crate::sstable_reader::{decode_index, decode_pair, decode_records};
use crate::sstable_writer::{data_bytes, entry_bytes, index_bytes, record_bytes, WriterView};
use vstd::prelude::*;

verus! {

/// Whether every record of `records` has a key of kind `key` and a value
/// of kind `value`, each short enough to be encoded.
pub open spec fn records_of_kind(records: Seq<(Scalar, Scalar)>, key: MajorType, value: MajorType) -> bool {
    forall|i: int|
        0 <= i < records.len() ==> {
            &&& (#[trigger] records[i]).0.major_type() == key
            &&& records[i].1.major_type() == value
            &&& records[i].0.fits()
            &&& records[i].1.fits()
        }
}

/// The offset at which record `i` starts in a data file that holds
/// `records` from byte `start` on.
pub open spec fn record_offset(records: Seq<(Scalar, Scalar)>, start: nat, i: int) -> nat {
    start + data_bytes(records.take(i)).len()
}

/// The entries of the index that goes with a data file holding `records`
/// from byte `start` on: each key with the offset of its record.
pub open spec fn index_of(records: Seq<(Scalar, Scalar)>, start: nat) -> Seq<(Scalar, u64)> {
    Seq::new(records.len(), |i: int| (records[i].0, record_offset(records, start, i) as u64))
}

/// The bytes of two runs of records, one after the other, are the bytes of
/// the first run followed by those of the second.
pub proof fn lemma_data_bytes_concat(a: Seq<(Scalar, Scalar)>, b: Seq<(Scalar, Scalar)>)
    ensures
        data_bytes(a + b) == data_bytes(a) + data_bytes(b),
    decreases b.len(),
{
    if b.len() == 0 {
        assert(a + b =~= a);
        assert(data_bytes(a) + data_bytes(b) =~= data_bytes(a));
    } else {
        assert((a + b).drop_last() =~= a + b.drop_last());
        lemma_data_bytes_concat(a, b.drop_last());
        assert((a + b).last() == b.last());
        assert(data_bytes(a + b) =~= data_bytes(a) + data_bytes(b));
    }
}

/// The bytes of a single record, as a data file and as an index.
pub proof fn lemma_single_record(r: (Scalar, Scalar), start: nat)
    ensures
        data_bytes(seq![r]) == record_bytes(r),
        index_bytes(seq![r], start) == entry_bytes(r.0, start),
{
    let one = seq![r];
    assert(one.drop_last() =~= Seq::<(Scalar, Scalar)>::empty());
    assert(data_bytes(one.drop_last()) =~= Seq::<u8>::empty());
    assert(index_bytes(one.drop_last(), start) =~= Seq::<u8>::empty());
    assert(data_bytes(one) =~= record_bytes(r));
    assert(index_bytes(one, start) =~= entry_bytes(r.0, start));
}

/// The bytes of a run of records start with the bytes of its first record.
pub proof fn lemma_data_bytes_first(records: Seq<(Scalar, Scalar)>)
    requires
        records.len() > 0,
    ensures
        data_bytes(records) == record_bytes(records[0]) + data_bytes(records.drop_first()),
{
    let head = seq![records[0]];
    assert(head + records.drop_first() =~= records);
    lemma_data_bytes_concat(head, records.drop_first());
    lemma_single_record(records[0], 0);
}

/// The index of a run of records starts with the entry of its first
/// record; the rest is the index of the other records, which start behind
/// the first.
pub proof fn lemma_index_bytes_first(records: Seq<(Scalar, Scalar)>, start: nat)
    requires
        records.len() > 0,
    ensures
        index_bytes(records, start) == entry_bytes(records[0].0, start) + index_bytes(
            records.drop_first(),
            start + record_bytes(records[0]).len(),
        ),
    decreases records.len(),
{
    let first = records[0];
    let tail = records.drop_first();
    let shifted = start + record_bytes(first).len();
    if records.len() == 1 {
        assert(records =~= seq![first]);
        lemma_single_record(first, start);
        assert(tail =~= Seq::<(Scalar, Scalar)>::empty());
        assert(entry_bytes(first.0, start) + index_bytes(tail, shifted) =~= entry_bytes(
            first.0,
            start,
        ));
    } else {
        let init = records.drop_last();
        lemma_index_bytes_first(init, start);
        assert(init.drop_first() =~= tail.drop_last());
        assert(init[0] == first);
        assert(tail.last() == records.last());
        lemma_data_bytes_first(init);
        assert(start + data_bytes(init).len() == shifted + data_bytes(tail.drop_last()).len());
        assert(index_bytes(records, start) =~= entry_bytes(first.0, start) + index_bytes(
            tail,
            shifted,
        ));
    }
}

/// A key and a value that were written one after the other are read back
/// as they were, whatever follows them.
pub proof fn lemma_pair_round_trip(a: Scalar, b: Scalar, rest: Seq<u8>)
    requires
        a.fits(),
        b.fits(),
    ensures
        decode_pair(a.major_type(), b.major_type(), a.encoding() + b.encoding() + rest) == Ok::<
            (Scalar, Scalar, nat),
            ErrorKind,
        >((a, b, (a.encoding() + b.encoding()).len())),
        (a.encoding() + b.encoding()).len() >= 2,
{
    reveal(decode_pair);
    let bytes = a.encoding() + b.encoding() + rest;
    assert(bytes =~= a.encoding() + (b.encoding() + rest));
    lemma_round_trip(a, b.encoding() + rest);
    lemma_round_trip(b, rest);
    assert(bytes.skip(a.encoding().len() as int) =~= b.encoding() + rest);
}

/// Writing, then reading, gives the same records in the same order: the
/// bytes of a data file that holds `records` decode to `records`.
pub proof fn lemma_records_round_trip(records: Seq<(Scalar, Scalar)>, key: MajorType, value: MajorType)
    requires
        records_of_kind(records, key, value),
    ensures
        decode_records(key, value, data_bytes(records)) == Ok::<Seq<(Scalar, Scalar)>, ErrorKind>(
            records,
        ),
    decreases records.len(),
{
    if records.len() > 0 {
        let first = records[0];
        let tail = records.drop_first();
        let bytes = data_bytes(records);
        lemma_data_bytes_first(records);
        lemma_pair_round_trip(first.0, first.1, data_bytes(tail));
        let n = record_bytes(first).len();
        assert(bytes.skip(n as int) =~= data_bytes(tail));
        assert(records_of_kind(tail, key, value)) by {
            assert forall|i: int| 0 <= i < tail.len() implies {
                &&& (#[trigger] tail[i]).0.major_type() == key
                &&& tail[i].1.major_type() == value
                &&& tail[i].0.fits()
                &&& tail[i].1.fits()
            } by {
                assert(tail[i] == records[i + 1]);
            }
        }
        lemma_records_round_trip(tail, key, value);
        assert(seq![first] + tail =~= records);
        assert(bytes.len() >= n >= 2);
        assert(decode_records(key, value, bytes) == Ok::<Seq<(Scalar, Scalar)>, ErrorKind>(
            seq![first] + tail,
        ));
    } else {
        assert(records =~= Seq::<(Scalar, Scalar)>::empty());
    }
}

/// Each offset in the index leads to its record: reading the data file
/// from the offset of record `i` on gives the records from `i` on, and the
/// first thing read there is record `i` itself.
pub proof fn lemma_offset_leads_to_record(
    before: Seq<u8>,
    records: Seq<(Scalar, Scalar)>,
    key: MajorType,
    value: MajorType,
    i: int,
)
    requires
        records_of_kind(records, key, value),
        0 <= i < records.len(),
    ensures
        record_offset(records, before.len(), i) + record_bytes(records[i]).len() <= (before
            + data_bytes(records)).len(),
        decode_pair(
            key,
            value,
            (before + data_bytes(records)).skip(record_offset(records, before.len(), i) as int),
        ) == Ok::<(Scalar, Scalar, nat), ErrorKind>(
            (records[i].0, records[i].1, record_bytes(records[i]).len()),
        ),
        decode_records(
            key,
            value,
            (before + data_bytes(records)).skip(record_offset(records, before.len(), i) as int),
        ) == Ok::<Seq<(Scalar, Scalar)>, ErrorKind>(records.skip(i)),
{
    let done = records.take(i);
    let left = records.skip(i);
    assert(done + left =~= records);
    lemma_data_bytes_concat(done, left);
    let file = before + data_bytes(records);
    let at = record_offset(records, before.len(), i);
    assert(file.skip(at as int) =~= data_bytes(left));
    assert(records_of_kind(left, key, value)) by {
        assert forall|j: int| 0 <= j < left.len() implies {
            &&& (#[trigger] left[j]).0.major_type() == key
            &&& left[j].1.major_type() == value
            &&& left[j].0.fits()
            &&& left[j].1.fits()
        } by {
            assert(left[j] == records[i + j]);
        }
    }
    lemma_records_round_trip(left, key, value);
    lemma_data_bytes_first(left);
    lemma_pair_round_trip(left[0].0, left[0].1, data_bytes(left.drop_first()));
}

/// The index that was written comes back as it was: the bytes of the
/// index file decode to the keys of the records, in their order, each with
/// the offset at which its record starts.
pub proof fn lemma_index_round_trip(records: Seq<(Scalar, Scalar)>, start: nat, key: MajorType, value: MajorType)
    requires
        records_of_kind(records, key, value),
        start + data_bytes(records).len() <= u64::MAX,
    ensures
        decode_index(key, index_bytes(records, start)) == Ok::<Seq<(Scalar, u64)>, ErrorKind>(
            index_of(records, start),
        ),
    decreases records.len(),
{
    if records.len() == 0 {
        assert(index_of(records, start) =~= Seq::<(Scalar, u64)>::empty());
    } else {
        let first = records[0];
        let tail = records.drop_first();
        let shifted = start + record_bytes(first).len();
        lemma_index_bytes_first(records, start);
        lemma_data_bytes_first(records);
        let offset = Scalar::U64(start as u64);
        lemma_pair_round_trip(first.0, offset, index_bytes(tail, shifted));
        let n = entry_bytes(first.0, start).len();
        assert(index_bytes(records, start).skip(n as int) =~= index_bytes(tail, shifted));
        assert(records_of_kind(tail, key, value)) by {
            assert forall|i: int| 0 <= i < tail.len() implies {
                &&& (#[trigger] tail[i]).0.major_type() == key
                &&& tail[i].1.major_type() == value
                &&& tail[i].0.fits()
                &&& tail[i].1.fits()
            } by {
                assert(tail[i] == records[i + 1]);
            }
        }
        lemma_index_round_trip(tail, shifted, key, value);
        assert(records.take(0) =~= Seq::<(Scalar, Scalar)>::empty());
        assert(seq![(first.0, start as u64)] + index_of(tail, shifted) =~= index_of(records, start)) by {
            assert forall|i: int| 0 <= i < tail.len() implies record_offset(tail, shifted, i)
                == record_offset(records, start, i + 1) by {
                let head = seq![first];
                assert(head + tail.take(i) =~= records.take(i + 1));
                lemma_data_bytes_concat(head, tail.take(i));
                lemma_single_record(first, 0);
            }
        }
    }
}

/// What a writer has collected reads back as what was written: where it
/// holds `records`, its data decodes to them, and its index to their keys,
/// each with the offset at which its record starts in the data file.
pub proof fn lemma_written_reads_back(
    writer: WriterView,
    records: Seq<(Scalar, Scalar)>,
    key: MajorType,
    value: MajorType,
)
    requires
        writer.holds(records),
        records_of_kind(records, key, value),
        writer.next_offset() <= u64::MAX,
    ensures
        decode_records(key, value, writer.data) == Ok::<Seq<(Scalar, Scalar)>, ErrorKind>(records),
        decode_index(key, writer.index) == Ok::<Seq<(Scalar, u64)>, ErrorKind>(
            index_of(records, writer.data_start),
        ),
{
    lemma_records_round_trip(records, key, value);
    lemma_index_round_trip(records, writer.data_start, key, value);
}

/// The record that a merge finds at an offset of the index is the record
/// that the entry was written for.
pub proof fn lemma_record_at_offset(records: Seq<(Scalar, Scalar)>, key: MajorType, value: MajorType, i: int)
    requires
        records_of_kind(records, key, value),
        0 <= i < records.len(),
        data_bytes(records).len() <= u64::MAX,
    ensures
        index_of(records, 0)[i].0 == records[i].0,
        record_at(key, value, data_bytes(records), index_of(records, 0)[i].1) == Ok::<
            (Scalar, Scalar),
            ErrorKind,
        >(records[i]),
{
    let before = Seq::<u8>::empty();
    lemma_offset_leads_to_record(before, records, key, value, i);
    assert(before + data_bytes(records) =~= data_bytes(records));
    lemma_data_bytes_concat(records.take(i), records.skip(i));
    assert(records.take(i) + records.skip(i) =~= records);
}

/// An index that was written, loaded and sorted still leads to the records
/// that were written: each of its entries names the offset of a record with
/// the key of the entry, and a merge that follows the index reads that
/// record there.
pub proof fn lemma_sorted_index_leads_to_records<K: CborItem, O: SortKey<K>>(
    records: Seq<(Scalar, Scalar)>,
    sorted: Seq<(K, u64)>,
    value: MajorType,
    p: int,
)
    requires
        records_of_kind(records, K::kind(), value),
        data_bytes(records).len() <= u64::MAX,
        is_sorted_index::<K, O>(index_bytes(records, 0), sorted),
        0 <= p < sorted.len(),
    ensures
        exists|i: int|
            {
                &&& 0 <= i < records.len()
                &&& (#[trigger] records[i]).0 == sorted[p].0.scalar()
                &&& record_at(K::kind(), value, data_bytes(records), sorted[p].1) == Ok::<
                    (Scalar, Scalar),
                    ErrorKind,
                >(records[i])
            },
{
    lemma_index_round_trip(records, 0, K::kind(), value);
    let loaded = choose|loaded: Seq<(K, u64)>|
        {
            &&& decode_index(K::kind(), index_bytes(records, 0)) == Ok::<
                Seq<(Scalar, u64)>,
                ErrorKind,
            >(#[trigger] index_entries(loaded))
            &&& sorted.to_multiset() == loaded.to_multiset()
        };
    assert(index_entries(loaded) == index_of(records, 0));
    assert(index_entries(loaded).len() == loaded.len());
    assert(index_of(records, 0).len() == records.len());
    sorted.to_multiset_ensures();
    loaded.to_multiset_ensures();
    assert(sorted.contains(sorted[p]));
    assert(sorted.to_multiset().count(sorted[p]) > 0);
    assert(loaded.to_multiset().count(sorted[p]) > 0);
    assert(loaded.contains(sorted[p]));
    let i = choose|i: int| 0 <= i < loaded.len() && loaded[i] == sorted[p];
    assert(index_entries(loaded)[i] == (sorted[p].0.scalar(), sorted[p].1));
    lemma_record_at_offset(records, K::kind(), value, i);
    assert(records[i].0 == sorted[p].0.scalar());
}

} // verus!
