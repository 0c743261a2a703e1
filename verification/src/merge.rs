//! Merging tables: the records of several tables, each with its index, are
//! given out in one run that follows the order of the keys.
//!
//! Each table is walked along its index. At every step the entries at
//! which the walks stand are compared, and the table whose entry has the
//! smallest key gives its record: the one at the offset that the entry
//! names. Of entries with one key the table that comes first in the list
//! goes first. Nothing is assumed of the order of an index; an index that
//! is not sorted gives a run that is not sorted.

use crate::cbor::{CborItem, Scalar};
use crate::cbor_types::MajorType;
use crate::error::{Error, ErrorKind};
use crate::heap::{table_le, MinHeap};
use crate::natural::{Key, Natural};
use crate::order::{key_order, keys_of, sort_in, sorted_in, ByteOrder, SortKey};
use crate::outputs::{Emit, OutputView, OutputWriter};
use crate::read::{CursorView, SeekFrom};
use crate::sstable_reader::{
    decode_index, decode_pair, index_entries, SSTableIndex, SSTableReader,
};
use crate::text::ToText;
use vstd::prelude::*;
use vstd::relations::sorted_by;

verus! {

/// The tables to merge: for each its reader and its index.
pub type SSTableIndexPairs<K, V> = Vec<(SSTableReader<(K, V)>, SSTableIndex<K>)>;

/// The number of entries that the walks have still before them in the
/// tables from the `i`th on, where `cursors` says how far each walk has
/// come in the index whose sort keys are in `keys`.
pub open spec fn entries_left(keys: Seq<Seq<Seq<u8>>>, cursors: Seq<nat>, i: int) -> nat
    decreases keys.len() - i,
{
    if i < 0 || i >= keys.len() {
        0
    } else {
        let here = if cursors[i] < keys[i].len() {
            (keys[i].len() - cursors[i]) as nat
        } else {
            0
        };
        here + entries_left(keys, cursors, i + 1)
    }
}

/// Among the first `n` tables, the one that gives the next record: the
/// first of those whose walk stands at the smallest key. None where every
/// one of these walks is at its end.
pub open spec fn pick_upto<O: ByteOrder>(keys: Seq<Seq<Seq<u8>>>, cursors: Seq<nat>, n: int) -> Option<
    int,
>
    decreases n,
{
    if n <= 0 {
        None
    } else {
        let before = pick_upto::<O>(keys, cursors, n - 1);
        let i = n - 1;
        if cursors[i] >= keys[i].len() {
            before
        } else {
            match before {
                None => Some(i),
                Some(b) => if O::lt(keys[i][cursors[i] as int], keys[b][cursors[b] as int]) {
                    Some(i)
                } else {
                    before
                },
            }
        }
    }
}

/// The table that gives the next record.
pub open spec fn pick<O: ByteOrder>(keys: Seq<Seq<Seq<u8>>>, cursors: Seq<nat>) -> Option<int> {
    pick_upto::<O>(keys, cursors, keys.len() as int)
}

/// The next `steps` steps of the merge from where the walks stand: for each
/// step the table that gives a record and the place of the entry in its
/// index.
pub open spec fn merge_steps<O: ByteOrder>(keys: Seq<Seq<Seq<u8>>>, cursors: Seq<nat>, steps: nat) -> Seq<
    (int, int),
>
    decreases steps,
{
    if steps == 0 {
        Seq::empty()
    } else {
        match pick::<O>(keys, cursors) {
            None => Seq::empty(),
            Some(m) => seq![(m, cursors[m] as int)] + merge_steps::<O>(
                keys,
                cursors.update(m, cursors[m] + 1),
                (steps - 1) as nat,
            ),
        }
    }
}

/// Walks that stand at the start of each of `n` indexes.
pub open spec fn at_start(n: nat) -> Seq<nat> {
    Seq::new(n, |i: int| 0nat)
}

/// The order of the merge: for each record that is given out, the table
/// that gives it and the place of its entry in that table's index.
pub open spec fn merge_order<O: ByteOrder>(keys: Seq<Seq<Seq<u8>>>) -> Seq<(int, int)> {
    merge_steps::<O>(keys, at_start(keys.len()), entries_left(keys, at_start(keys.len()), 0))
}

/// The record that the data `data` holds at `offset`, or the reason why it
/// holds none: an offset at which nothing is left dangles.
pub open spec fn record_at(key_kind: MajorType, value_kind: MajorType, data: Seq<u8>, offset: u64) -> Result<
    (Scalar, Scalar),
    ErrorKind,
> {
    let left = (CursorView { bytes: data, pos: offset as nat }).remaining();
    if left.len() == 0 {
        Err(ErrorKind::OffsetDangling)
    } else {
        match decode_pair(key_kind, value_kind, left) {
            Ok((k, v, _)) => Ok((k, v)),
            Err(e) => Err(e),
        }
    }
}

/// The sink after it took the records from the `i`th on, one after the
/// other, and the error that ended this, if one did: the error of the
/// first record that is none, or `InvalidInput` for the first record that
/// the sink cannot take.
pub open spec fn emit_from(out: OutputView, records: Seq<Result<(Scalar, Scalar), ErrorKind>>, i: int) -> (
    OutputView,
    Option<ErrorKind>,
)
    decreases records.len() - i,
{
    if i < 0 || i >= records.len() {
        (out, None)
    } else {
        match records[i] {
            Err(e) => (out, Some(e)),
            Ok((k, v)) => if out.can_emit(k, v) {
                emit_from(out.after_emit(k, v), records, i + 1)
            } else {
                (out, Some(ErrorKind::InvalidInput))
            },
        }
    }
}

/// The sort keys of each table's index.
pub open spec fn keys_of_all<K, O: SortKey<K>>(indexes: Seq<SSTableIndex<K>>) -> Seq<Seq<Seq<u8>>> {
    indexes.map_values(|x: SSTableIndex<K>| keys_of::<K, O>(x.indices@))
}

/// The records that the merge reads, in its order: for each step the
/// record at the offset that the entry names, or the reason why there is
/// none.
pub open spec fn records_in_order<K, V>(
    key_kind: MajorType,
    value_kind: MajorType,
    data: Seq<Seq<u8>>,
    indexes: Seq<SSTableIndex<K>>,
    order: Seq<(int, int)>,
) -> Seq<Result<(Scalar, Scalar), ErrorKind>> {
    order.map_values(
        |step: (int, int)|
            record_at(key_kind, value_kind, data[step.0], indexes[step.0].indices@[step.1].1),
    )
}

/// The table that `pick_upto` names has an entry left, and there is at
/// least one entry left in all.
pub proof fn lemma_pick_has_entry<O: ByteOrder>(keys: Seq<Seq<Seq<u8>>>, cursors: Seq<nat>, n: int)
    requires
        0 <= n <= keys.len(),
        cursors.len() == keys.len(),
    ensures
        match pick_upto::<O>(keys, cursors, n) {
            Some(m) => 0 <= m < n && cursors[m] < keys[m].len(),
            None => forall|i: int| 0 <= i < n ==> cursors[i] >= #[trigger] keys[i].len(),
        },
    decreases n,
{
    if n > 0 {
        lemma_pick_has_entry::<O>(keys, cursors, n - 1);
    }
}

/// A step of the walk along table `m` leaves one entry less.
pub proof fn lemma_step_leaves_less(keys: Seq<Seq<Seq<u8>>>, cursors: Seq<nat>, m: int, i: int)
    requires
        cursors.len() == keys.len(),
        0 <= m < keys.len(),
        cursors[m] < keys[m].len(),
        0 <= i <= keys.len(),
    ensures
        entries_left(keys, cursors.update(m, cursors[m] + 1), i) + (if i <= m {
            1nat
        } else {
            0nat
        }) == entries_left(keys, cursors, i),
    decreases keys.len() - i,
{
    if i < keys.len() {
        lemma_step_leaves_less(keys, cursors, m, i + 1);
    }
}

/// The bytes of each table's data.
pub open spec fn data_of_all<K, V>(pairs: Seq<(SSTableReader<(K, V)>, SSTableIndex<K>)>) -> Seq<Seq<u8>> {
    pairs.map_values(|p: (SSTableReader<(K, V)>, SSTableIndex<K>)| p.0@.bytes)
}

/// Each table's index.
pub open spec fn indexes_of_all<K, V>(pairs: Seq<(SSTableReader<(K, V)>, SSTableIndex<K>)>) -> Seq<
    SSTableIndex<K>,
> {
    pairs.map_values(|p: (SSTableReader<(K, V)>, SSTableIndex<K>)| p.1)
}

/// How far each walk has come, as a specification sees it.
pub open spec fn cursors_of(cursors: Seq<usize>) -> Seq<nat> {
    cursors.map_values(|c: usize| c as nat)
}

/// What a merge of `pairs` into a sink that is `out` leaves of the sink,
/// and the error that ends the merge, if one does.
pub open spec fn merge_outcome<K: CborItem, V: CborItem, O: SortKey<K>>(
    pairs: Seq<(SSTableReader<(K, V)>, SSTableIndex<K>)>,
    out: OutputView,
) -> (OutputView, Option<ErrorKind>) {
    let indexes = indexes_of_all(pairs);
    let order = merge_order::<O>(keys_of_all::<K, O>(indexes));
    emit_from(
        out,
        records_in_order::<K, V>(K::kind(), V::kind(), data_of_all(pairs), indexes, order),
        0,
    )
}

/// Whether `heap` holds the tables whose walks have not come to their
/// end, each under the key at which its walk stands.
pub open spec fn heap_holds_heads<O: ByteOrder>(heap: MinHeap<O>, keys: Seq<Seq<Seq<u8>>>, cursors: Seq<nat>) -> bool {
    &&& heap.wf()
    &&& heap.keys().len() == keys.len()
    &&& forall|t: usize| #[trigger] heap.tables().contains(t) ==> t < keys.len()
    &&& forall|i: int|
        0 <= i < keys.len() ==> (heap.tables().contains(i as usize) <==> cursors[i] < (#[trigger] keys[i]).len())
    &&& forall|i: int|
        0 <= i < keys.len() && cursors[i] < (#[trigger] keys[i]).len() ==> heap.keys()[i]
            == keys[i][cursors[i] as int]
}

/// The table at the top of the heap is the table that the merge picks: of
/// the tables with an entry left, the one that goes before all others is
/// the first of those that stand at the smallest key.
pub proof fn lemma_top_is_pick<O: ByteOrder>(
    queued: Seq<Seq<u8>>,
    keys: Seq<Seq<Seq<u8>>>,
    cursors: Seq<nat>,
    m: int,
)
    requires
        cursors.len() == keys.len(),
        queued.len() == keys.len(),
        0 <= m < keys.len(),
        cursors[m] < keys[m].len(),
        forall|i: int|
            0 <= i < keys.len() && cursors[i] < (#[trigger] keys[i]).len() ==> queued[i]
                == keys[i][cursors[i] as int] && table_le::<O>(queued, m, i),
    ensures
        pick::<O>(keys, cursors) == Some(m),
{
    lemma_pick_has_entry::<O>(keys, cursors, keys.len() as int);
    if pick::<O>(keys, cursors) is None {
        assert(cursors[m] >= keys[m].len());
    }
    lemma_pick_is_least::<O>(keys, cursors, keys.len() as int);
    let p = pick::<O>(keys, cursors)->Some_0;
    assert(table_le::<O>(queued, m, p));
    assert(!O::lt(keys[m][cursors[m] as int], keys[p][cursors[p] as int]));
    O::lemma_trichotomy(queued[m], queued[p]);
}

/// Where no table has an entry left, the merge picks none.
pub proof fn lemma_no_heads_no_pick<O: ByteOrder>(keys: Seq<Seq<Seq<u8>>>, cursors: Seq<nat>)
    requires
        cursors.len() == keys.len(),
        forall|i: int| 0 <= i < keys.len() ==> cursors[i] >= (#[trigger] keys[i]).len(),
    ensures
        pick::<O>(keys, cursors) is None,
{
    lemma_pick_has_entry::<O>(keys, cursors, keys.len() as int);
    if pick::<O>(keys, cursors) is Some {
        let m = pick::<O>(keys, cursors)->Some_0;
        assert(cursors[m] >= keys[m].len());
    }
}

/// The entry of `sstable_index` at `index_pos`, as a copy; nothing where the
/// index ends before.
pub fn clone_index_entry<K: Key>(sstable_index: &SSTableIndex<K>, index_pos: usize) -> (r: Option<
    (K, u64),
>)
    ensures
        r is Some <==> index_pos < sstable_index.indices@.len(),
        r is Some ==> r->Some_0.0.scalar() == sstable_index.indices@[index_pos as int].0.scalar()
            && r->Some_0.1 == sstable_index.indices@[index_pos as int].1,
{
    if index_pos < sstable_index.indices.len() {
        let entry: &(K, u64) = &sstable_index.indices[index_pos];
        Some((entry.0.duplicate(), entry.1))
    } else {
        None
    }
}

/// The heap with which a merge of the tables with the indexes `indexes`
/// starts: each table that has an entry is queued under its first key.
pub fn initialize_heap<K, O: SortKey<K>>(indexes: &Vec<SSTableIndex<K>>) -> (heap: MinHeap<O>)
    ensures
        heap_holds_heads::<O>(heap, keys_of_all::<K, O>(indexes@), at_start(indexes@.len())),
{
    let ghost keys = keys_of_all::<K, O>(indexes@);
    let ghost c = at_start(indexes@.len());
    let mut heap: MinHeap<O> = MinHeap::new(indexes.len());
    let mut i: usize = 0;
    while i < indexes.len()
        invariant
            i <= indexes@.len(),
            keys == keys_of_all::<K, O>(indexes@),
            c == at_start(indexes@.len()),
            heap.wf(),
            heap.keys().len() == keys.len(),
            forall|t: usize| #[trigger] heap.tables().contains(t) ==> t < i,
            forall|k: int|
                0 <= k < i ==> (heap.tables().contains(k as usize) <==> 0 < (#[trigger] keys[k]).len()),
            forall|k: int|
                0 <= k < i && 0 < (#[trigger] keys[k]).len() ==> heap.keys()[k] == keys[k][0],
        decreases indexes@.len() - i,
    {
        if indexes[i].indices.len() > 0 {
            let mut key: Vec<u8> = Vec::new();
            O::write_sort_key(&indexes[i].indices[0].0, &mut key);
            assert(key@ == keys[i as int][0]);
            heap.push(i, key);
        }
        i += 1;
    }
    heap
}

/// Merges the tables of `sstable_index_pairs` into `emitter` in the order
/// `O` of their keys.
///
/// The records are given out in the order of `merge_order`: at each step
/// the table whose walk stands at the smallest key gives the record at the
/// offset that its entry names, and of tables that stand at one key the
/// first in the list. No table gives nothing.
///
/// The merge ends in the error of the first record that cannot be read,
/// `OffsetDangling` where an offset leads behind the data, or in
/// `InvalidInput` where the sink cannot take a record. What was given out
/// before stays in the sink.
pub fn merge_sorted_sstable_index_pairs<K: CborItem + ToText, V: CborItem + ToText, O: SortKey<K>>(
    sstable_index_pairs: SSTableIndexPairs<K, V>,
    emitter: &mut OutputWriter,
) -> (r: Result<(), Error>)
    ensures
        final(emitter)@ == merge_outcome::<K, V, O>(sstable_index_pairs@, old(emitter)@).0,
        match merge_outcome::<K, V, O>(sstable_index_pairs@, old(emitter)@).1 {
            None => r is Ok,
            Some(e) => r is Err && r->Err_0.kind == e,
        },
{
    let ghost data = data_of_all(sstable_index_pairs@);
    let ghost all_indexes = indexes_of_all(sstable_index_pairs@);
    let ghost keys = keys_of_all::<K, O>(all_indexes);
    let ghost order = merge_order::<O>(keys);
    let ghost records = records_in_order::<K, V>(K::kind(), V::kind(), data, all_indexes, order);
    let ghost start = old(emitter)@;

    // Part the readers from the indexes: the readers move, the indexes
    // stay as they are.
    let mut pairs: SSTableIndexPairs<K, V> = sstable_index_pairs;
    let mut readers: Vec<SSTableReader<(K, V)>> = Vec::new();
    let mut indexes: Vec<SSTableIndex<K>> = Vec::new();
    let mut cursors: Vec<usize> = Vec::new();
    let count: usize = pairs.len();
    while pairs.len() > 0
        invariant
            readers@.len() + pairs@.len() == count,
            indexes@.len() == readers@.len(),
            cursors@.len() == readers@.len(),
            count == sstable_index_pairs@.len(),
            pairs@ == sstable_index_pairs@.skip(readers@.len() as int),
            forall|i: int|
                0 <= i < readers@.len() ==> (#[trigger] readers@[i])@ == sstable_index_pairs@[i].0@,
            forall|i: int| 0 <= i < indexes@.len() ==> #[trigger] indexes@[i] == sstable_index_pairs@[i].1,
            forall|i: int| 0 <= i < cursors@.len() ==> #[trigger] cursors@[i] == 0,
        decreases pairs@.len(),
    {
        let ghost done = readers@.len() as int;
        let pair: (SSTableReader<(K, V)>, SSTableIndex<K>) = pairs.remove(0);
        assert(pair == sstable_index_pairs@[done]);
        assert(pairs@ =~= sstable_index_pairs@.skip(done + 1));
        readers.push(pair.0);
        indexes.push(pair.1);
        cursors.push(0);
    }
    assert(indexes@ =~= all_indexes);
    assert(cursors_of(cursors@) =~= at_start(keys.len()));

    let mut heap: MinHeap<O> = initialize_heap::<K, O>(&indexes);
    let ghost mut fuel: nat = entries_left(keys, at_start(keys.len()), 0);
    let ghost mut done: int = 0;
    assert(order.skip(0) =~= order);
    loop
        invariant
            heap_holds_heads::<O>(heap, keys, cursors_of(cursors@)),
            forall|i: int|
                0 <= i < keys.len() ==> cursors_of(cursors@)[i] <= (#[trigger] keys[i]).len(),
            start == old(emitter)@,
            all_indexes == indexes_of_all(sstable_index_pairs@),
            indexes@ == all_indexes,
            keys == keys_of_all::<K, O>(all_indexes),
            order == merge_order::<O>(keys),
            records == records_in_order::<K, V>(K::kind(), V::kind(), data, all_indexes, order),
            data == data_of_all(sstable_index_pairs@),
            readers@.len() == keys.len(),
            cursors@.len() == keys.len(),
            forall|i: int| 0 <= i < readers@.len() ==> (#[trigger] readers@[i])@.bytes == data[i],
            fuel == entries_left(keys, cursors_of(cursors@), 0),
            0 <= done <= order.len(),
            order.skip(done) == merge_steps::<O>(keys, cursors_of(cursors@), fuel),
            emit_from(start, records, 0) == emit_from(emitter@, records, done),
        ensures
            final(emitter)@ == emit_from(start, records, 0).0,
            emit_from(start, records, 0).1 is None,
        decreases fuel,
    {
        let ghost c = cursors_of(cursors@);
        let ghost queued = heap.keys();
        let ghost waiting = heap.tables();
        let tables: usize = cursors.len();
        let m: usize = match heap.pop() {
            Some(m) => m,
            None => {
                proof {
                    assert forall|i: int| 0 <= i < keys.len() implies c[i] >= (#[trigger] keys[i]).len() by {
                        assert(!waiting.contains(i as usize));
                    }
                    lemma_no_heads_no_pick::<O>(keys, c);
                    lemma_entries_left_none::<O>(keys, c);
                    assert(order.skip(done).len() == 0);
                }
                break ;
            },
        };
        proof {
            assert forall|i: int|
                0 <= i < keys.len() && c[i] < (#[trigger] keys[i]).len() implies queued[i]
                == keys[i][c[i] as int] && table_le::<O>(queued, m as int, i) by {
                assert((i as usize) as int == i);
                assert(waiting.contains(i as usize));
                assert(table_le::<O>(queued, m as int, (i as usize) as int));
                assert(queued[i] == keys[i][c[i] as int]);
            }
            lemma_top_is_pick::<O>(queued, keys, c, m as int);
        }
        let at: usize = cursors[m];
        let limit: usize = indexes[m].indices.len();
        let offset: u64 = indexes[m].indices[at].1;
        proof {
            lemma_pick_has_entry::<O>(keys, c, keys.len() as int);
            lemma_step_leaves_less(keys, c, m as int, 0);
            assert(fuel >= 1);
            assert(c[m as int] == at);
            let next = merge_steps::<O>(keys, c.update(m as int, c[m as int] + 1), (fuel - 1) as nat);
            assert(merge_steps::<O>(keys, c, fuel) == seq![(m as int, at as int)] + next);
            assert(order.skip(done).len() >= 1);
            assert(order[done] == order.skip(done)[0]);
            assert(order[done] == (m as int, at as int));
            assert(all_indexes[m as int].indices@[at as int].1 == offset);
            assert(records[done] == record_at(K::kind(), V::kind(), data[m as int], offset));
            assert(order.skip(done + 1) =~= order.skip(done).skip(1));
            assert(order.skip(done).skip(1) =~= next);
        }
        let moved: Result<u64, Error> = readers[m].seek(SeekFrom::Start(offset));
        let kv: (K, V) = match readers[m].next() {
            Some(Ok(kv)) => kv,
            Some(Err(e)) => {
                return Err(e);
            },
            None => {
                return Err(Error::new(ErrorKind::OffsetDangling));
            },
        };
        match emitter.emit(kv) {
            Ok(_) => {},
            Err(e) => {
                return Err(e);
            },
        }
        cursors[m] = at + 1;
        proof {
            assert(cursors_of(cursors@) =~= c.update(m as int, c[m as int] + 1));
            fuel = (fuel - 1) as nat;
            done = done + 1;
        }
        if at + 1 < limit {
            let mut key: Vec<u8> = Vec::new();
            O::write_sort_key(&indexes[m].indices[at + 1].0, &mut key);
            assert(key@ == keys[m as int][at + 1]);
            heap.push(m, key);
        }
    }
    Ok(())
}

/// Where no table gives a record, no entry is left, and no step follows.
pub proof fn lemma_entries_left_none<O: ByteOrder>(keys: Seq<Seq<Seq<u8>>>, cursors: Seq<nat>)
    requires
        cursors.len() == keys.len(),
        pick::<O>(keys, cursors) is None,
    ensures
        forall|steps: nat| #[trigger] merge_steps::<O>(keys, cursors, steps).len() == 0,
{
    assert forall|steps: nat| #[trigger] merge_steps::<O>(keys, cursors, steps).len() == 0 by {}
}

/// Something that can be merged into a sink.
pub trait Mergeable {
    /// Merges this into `emitter`.
    fn merge(self, emitter: &mut OutputWriter) -> Result<(), Error>;
}

impl<K: Key, V: CborItem + ToText> Mergeable for SSTableIndexPairs<K, V> {
    /// Merges the tables into `emitter` in the natural order of their
    /// keys; see [`merge_sorted_sstable_index_pairs`].
    fn merge(self, emitter: &mut OutputWriter) -> (r: Result<(), Error>)
        ensures
            final(emitter)@ == merge_outcome::<K, V, Natural>(self@, old(emitter)@).0,
            match merge_outcome::<K, V, Natural>(self@, old(emitter)@).1 {
                None => r is Ok,
                Some(e) => r is Err && r->Err_0.kind == e,
            },
    {
        merge_sorted_sstable_index_pairs::<K, V, Natural>(self, emitter)
    }
}

/// Whether no walk has gone beyond the end of its index.
pub open spec fn walks_valid(keys: Seq<Seq<Seq<u8>>>, cursors: Seq<nat>) -> bool {
    &&& cursors.len() == keys.len()
    &&& forall|i: int| 0 <= i < keys.len() ==> cursors[i] <= (#[trigger] keys[i]).len()
}

/// The sort key of the entry that a step of the merge stands for.
pub open spec fn key_at(keys: Seq<Seq<Seq<u8>>>, step: (int, int)) -> Seq<u8> {
    keys[step.0][step.1]
}

/// Whether one of the steps `r` stands for the entry at place `p` of the
/// index of table `i`.
pub open spec fn has_step(r: Seq<(int, int)>, i: int, p: int) -> bool {
    exists|j: int| 0 <= j < r.len() && #[trigger] r[j] == (i, p)
}

/// Where every walk is at its end, no entry is left.
pub proof fn lemma_nothing_left(keys: Seq<Seq<Seq<u8>>>, cursors: Seq<nat>, i: int)
    requires
        cursors.len() == keys.len(),
        0 <= i,
        forall|k: int| 0 <= k < keys.len() ==> cursors[k] >= (#[trigger] keys[k]).len(),
    ensures
        entries_left(keys, cursors, i) == 0,
    decreases keys.len() - i,
{
    if i < keys.len() {
        assert(cursors[i] >= keys[i].len());
        lemma_nothing_left(keys, cursors, i + 1);
    }
}

/// The table that is picked stands at a key that none of the other walks
/// comes before, and that the walks of the tables before it come after.
pub proof fn lemma_pick_is_least<O: ByteOrder>(keys: Seq<Seq<Seq<u8>>>, cursors: Seq<nat>, n: int)
    requires
        0 <= n <= keys.len(),
        cursors.len() == keys.len(),
        pick_upto::<O>(keys, cursors, n) is Some,
    ensures
        ({
            let m = pick_upto::<O>(keys, cursors, n)->Some_0;
            &&& 0 <= m < n
            &&& cursors[m] < keys[m].len()
            &&& forall|i: int|
                0 <= i < n && cursors[i] < (#[trigger] keys[i]).len() ==> !O::lt(
                    keys[i][cursors[i] as int],
                    keys[m][cursors[m] as int],
                )
            &&& forall|i: int|
                0 <= i < m && cursors[i] < (#[trigger] keys[i]).len() ==> O::lt(
                    keys[m][cursors[m] as int],
                    keys[i][cursors[i] as int],
                )
        }),
    decreases n,
{
    let last = n - 1;
    let before = pick_upto::<O>(keys, cursors, n - 1);
    let m = pick_upto::<O>(keys, cursors, n)->Some_0;
    lemma_pick_has_entry::<O>(keys, cursors, n - 1);
    lemma_pick_has_entry::<O>(keys, cursors, n);
    if before is Some {
        lemma_pick_is_least::<O>(keys, cursors, n - 1);
        let b = before->Some_0;
        let kb = keys[b][cursors[b] as int];
        if cursors[last] < keys[last].len() {
            let kl = keys[last][cursors[last] as int];
            O::lemma_trichotomy(kl, kb);
            if O::lt(kl, kb) {
                assert forall|i: int| 0 <= i < n && cursors[i] < (#[trigger] keys[i]).len() implies !O::lt(
                    keys[i][cursors[i] as int],
                    kl,
                ) by {
                    let ki = keys[i][cursors[i] as int];
                    if i < last && O::lt(ki, kl) {
                        O::lemma_transitive(ki, kl, kb);
                    }
                    O::lemma_trichotomy(ki, kl);
                }
                assert forall|i: int| 0 <= i < m && cursors[i] < (#[trigger] keys[i]).len() implies O::lt(
                    kl,
                    keys[i][cursors[i] as int],
                ) by {
                    let ki = keys[i][cursors[i] as int];
                    O::lemma_trichotomy(ki, kb);
                    if i != b {
                        if i < b {
                            O::lemma_transitive(kl, kb, ki);
                        } else {
                            if ki != kb {
                                O::lemma_transitive(kl, kb, ki);
                            }
                        }
                    }
                }
            }
        }
    } else {
        O::lemma_trichotomy(keys[m][cursors[m] as int], keys[m][cursors[m] as int]);
    }
}

/// The merge gives each entry of each index exactly once: from where the
/// walks stand it takes as many steps as entries are left, every step
/// stands for an entry that was left, every entry that was left has its
/// step, and the entries of one table come in the order of its index.
pub proof fn lemma_merge_takes_each_entry_once<O: ByteOrder>(
    keys: Seq<Seq<Seq<u8>>>,
    cursors: Seq<nat>,
    fuel: nat,
)
    requires
        walks_valid(keys, cursors),
        fuel == entries_left(keys, cursors, 0),
    ensures
        ({
            let r = merge_steps::<O>(keys, cursors, fuel);
            &&& r.len() == fuel
            &&& forall|j: int|
                0 <= j < r.len() ==> 0 <= (#[trigger] r[j]).0 < keys.len() && cursors[r[j].0]
                    <= r[j].1 < keys[r[j].0].len()
            &&& forall|i: int, p: int|
                0 <= i < keys.len() && cursors[i] <= p < keys[i].len() ==> #[trigger] has_step(
                    r,
                    i,
                    p,
                )
            &&& forall|j1: int, j2: int|
                0 <= j1 < j2 < r.len() && (#[trigger] r[j1]).0 == (#[trigger] r[j2]).0 ==> r[j1].1
                    < r[j2].1
        }),
    decreases fuel,
{
    let r = merge_steps::<O>(keys, cursors, fuel);
    match pick::<O>(keys, cursors) {
        None => {
            lemma_pick_has_entry::<O>(keys, cursors, keys.len() as int);
            lemma_nothing_left(keys, cursors, 0);
        },
        Some(m) => {
            lemma_pick_has_entry::<O>(keys, cursors, keys.len() as int);
            lemma_step_leaves_less(keys, cursors, m, 0);
            let next = cursors.update(m, cursors[m] + 1);
            let rest = merge_steps::<O>(keys, next, (fuel - 1) as nat);
            assert(walks_valid(keys, next)) by {
                assert forall|i: int| 0 <= i < keys.len() implies next[i] <= (#[trigger] keys[i]).len() by {
                    assert(cursors[i] <= keys[i].len());
                }
            }
            lemma_merge_takes_each_entry_once::<O>(keys, next, (fuel - 1) as nat);
            assert(r == seq![(m, cursors[m] as int)] + rest);
            assert forall|j: int| 0 <= j < r.len() implies 0 <= (#[trigger] r[j]).0 < keys.len()
                && cursors[r[j].0] <= r[j].1 < keys[r[j].0].len() by {
                if j > 0 {
                    assert(r[j] == rest[j - 1]);
                }
            }
            assert forall|i: int, p: int|
                0 <= i < keys.len() && cursors[i] <= p < keys[i].len() implies #[trigger] has_step(
                r,
                i,
                p,
            ) by {
                if i == m && p == cursors[m] {
                    assert(r[0] == (i, p));
                } else {
                    assert(next[i] <= p);
                    assert(has_step(rest, i, p));
                    let j = choose|j: int| 0 <= j < rest.len() && #[trigger] rest[j] == (i, p);
                    assert(r[j + 1] == (i, p));
                }
            }
            assert forall|j1: int, j2: int|
                0 <= j1 < j2 < r.len() && (#[trigger] r[j1]).0 == (#[trigger] r[j2]).0 implies r[j1].1
                < r[j2].1 by {
                assert(r[j2] == rest[j2 - 1]);
                if j1 > 0 {
                    assert(r[j1] == rest[j1 - 1]);
                }
            }
        },
    }
}

/// Where each index has its keys in the order `O`, from where its walk
/// stands on, the merge gives the entries in that order: no step stands
/// for a key that comes before the key of a step before it, and of two
/// steps that stand for one key the step of the earlier table comes first.
pub proof fn lemma_merge_is_sorted<O: ByteOrder>(keys: Seq<Seq<Seq<u8>>>, cursors: Seq<nat>, fuel: nat)
    requires
        walks_valid(keys, cursors),
        fuel == entries_left(keys, cursors, 0),
        forall|i: int| 0 <= i < keys.len() ==> sorted_by(#[trigger] keys[i], key_order::<O>()),
    ensures
        ({
            let r = merge_steps::<O>(keys, cursors, fuel);
            forall|j1: int, j2: int|
                0 <= j1 < j2 < r.len() ==> key_order::<O>()(
                    key_at(keys, #[trigger] r[j1]),
                    key_at(keys, #[trigger] r[j2]),
                ) && (key_at(keys, r[j1]) == key_at(keys, r[j2]) ==> r[j1].0 <= r[j2].0)
        }),
    decreases fuel,
{
    let r = merge_steps::<O>(keys, cursors, fuel);
    match pick::<O>(keys, cursors) {
        None => {},
        Some(m) => {
            lemma_pick_is_least::<O>(keys, cursors, keys.len() as int);
            lemma_step_leaves_less(keys, cursors, m, 0);
            let next = cursors.update(m, cursors[m] + 1);
            let rest = merge_steps::<O>(keys, next, (fuel - 1) as nat);
            assert(walks_valid(keys, next)) by {
                assert forall|i: int| 0 <= i < keys.len() implies next[i] <= (#[trigger] keys[i]).len() by {
                    assert(cursors[i] <= keys[i].len());
                }
            }
            lemma_merge_is_sorted::<O>(keys, next, (fuel - 1) as nat);
            lemma_merge_takes_each_entry_once::<O>(keys, next, (fuel - 1) as nat);
            assert(r == seq![(m, cursors[m] as int)] + rest);
            let first = keys[m][cursors[m] as int];
            assert forall|j1: int, j2: int| 0 <= j1 < j2 < r.len() implies key_order::<O>()(
                key_at(keys, #[trigger] r[j1]),
                key_at(keys, #[trigger] r[j2]),
            ) && (key_at(keys, r[j1]) == key_at(keys, r[j2]) ==> r[j1].0 <= r[j2].0) by {
                assert(r[j2] == rest[j2 - 1]);
                if j1 > 0 {
                    assert(r[j1] == rest[j1 - 1]);
                } else {
                    // A later step stands for an entry at or behind the
                    // place where its table's walk stood when the first
                    // step was picked.
                    let i = r[j2].0;
                    let p = r[j2].1;
                    assert(next[i] <= p < keys[i].len());
                    let head = keys[i][cursors[i] as int];
                    let later = keys[i][p];
                    assert(!O::lt(head, first));
                    if cursors[i] < p {
                        assert(key_order::<O>()(keys[i][cursors[i] as int], keys[i][p]));
                    }
                    O::lemma_trichotomy(first, later);
                    O::lemma_trichotomy(head, first);
                    O::lemma_trichotomy(head, later);
                    if O::lt(later, first) {
                        if O::lt(head, later) {
                            O::lemma_transitive(head, later, first);
                        }
                    }
                    if later == first && i < m {
                        // The walk of an earlier table stood at a greater
                        // key when the first step was picked.
                        assert(O::lt(first, head));
                        if O::lt(head, later) {
                            O::lemma_transitive(first, head, later);
                        }
                    }
                }
            }
        },
    }
}

/// A merge is a sorted arrangement of all that its tables hold: it gives
/// every entry of every index exactly once, the entries of one table in the
/// order of its index, and, where each index has its keys in the order
/// `O`, all of them in that order, entries with one key table by table.
pub proof fn lemma_merge_order<O: ByteOrder>(keys: Seq<Seq<Seq<u8>>>)
    ensures
        ({
            let r = merge_order::<O>(keys);
            &&& r.len() == entries_left(keys, at_start(keys.len()), 0)
            &&& forall|j: int|
                0 <= j < r.len() ==> 0 <= (#[trigger] r[j]).0 < keys.len() && 0 <= r[j].1
                    < keys[r[j].0].len()
            &&& forall|i: int, p: int|
                0 <= i < keys.len() && 0 <= p < keys[i].len() ==> #[trigger] has_step(r, i, p)
            &&& forall|j1: int, j2: int|
                0 <= j1 < j2 < r.len() && (#[trigger] r[j1]).0 == (#[trigger] r[j2]).0 ==> r[j1].1
                    < r[j2].1
            &&& (forall|i: int| 0 <= i < keys.len() ==> sorted_by(#[trigger] keys[i], key_order::<O>()))
                ==> forall|j1: int, j2: int|
                0 <= j1 < j2 < r.len() ==> key_order::<O>()(
                    key_at(keys, #[trigger] r[j1]),
                    key_at(keys, #[trigger] r[j2]),
                ) && (key_at(keys, r[j1]) == key_at(keys, r[j2]) ==> r[j1].0 <= r[j2].0)
        }),
{
    let start = at_start(keys.len());
    let fuel = entries_left(keys, start, 0);
    lemma_merge_takes_each_entry_once::<O>(keys, start, fuel);
    if forall|i: int| 0 <= i < keys.len() ==> sorted_by(#[trigger] keys[i], key_order::<O>()) {
        lemma_merge_is_sorted::<O>(keys, start, fuel);
    }
}

/// The merge of a single table follows its index from start to end.
pub proof fn lemma_merge_of_one<O: ByteOrder>(keys: Seq<Seq<u8>>)
    ensures
        merge_order::<O>(seq![keys]) == Seq::new(keys.len(), |p: int| (0int, p)),
{
    let all = seq![keys];
    let r = merge_order::<O>(all);
    lemma_merge_order::<O>(all);
    let start = at_start(1);
    assert(entries_left(all, start, 1) == 0);
    assert(entries_left(all, start, 0) == keys.len());
    assert(r.len() == keys.len());
    // The places are below the length, and they grow from step to step:
    // so the step at `j` stands at place `j`.
    assert forall|j: int| 0 <= j < r.len() implies r[j] == (0int, j) by {
        lemma_increasing_places(r, keys.len() as int, j);
    }
    assert(r =~= Seq::new(keys.len(), |p: int| (0int, p)));
}

/// In a run of `n` steps of one table whose places are below `n` and grow
/// from step to step, the step at `j` stands at place `j`.
proof fn lemma_increasing_places(r: Seq<(int, int)>, n: int, j: int)
    requires
        r.len() == n,
        0 <= j < n,
        forall|k: int| 0 <= k < r.len() ==> (#[trigger] r[k]).0 == 0 && 0 <= r[k].1 < n,
        forall|j1: int, j2: int|
            0 <= j1 < j2 < r.len() && (#[trigger] r[j1]).0 == (#[trigger] r[j2]).0 ==> r[j1].1
                < r[j2].1,
    ensures
        r[j] == (0int, j),
{
    lemma_place_at_least(r, j);
    lemma_place_at_most(r, n, j);
}

/// Places that grow from step to step are at least the number of the step.
proof fn lemma_place_at_least(r: Seq<(int, int)>, j: int)
    requires
        0 <= j < r.len(),
        forall|k: int| 0 <= k < r.len() ==> (#[trigger] r[k]).0 == 0 && 0 <= r[k].1,
        forall|j1: int, j2: int|
            0 <= j1 < j2 < r.len() && (#[trigger] r[j1]).0 == (#[trigger] r[j2]).0 ==> r[j1].1
                < r[j2].1,
    ensures
        r[j].1 >= j,
    decreases j,
{
    if j > 0 {
        lemma_place_at_least(r, j - 1);
        assert(r[j - 1].0 == r[j].0);
    }
}

/// Places below `n` that grow from step to step leave room for the steps
/// that follow.
proof fn lemma_place_at_most(r: Seq<(int, int)>, n: int, j: int)
    requires
        r.len() == n,
        0 <= j < n,
        forall|k: int| 0 <= k < r.len() ==> (#[trigger] r[k]).0 == 0 && r[k].1 < n,
        forall|j1: int, j2: int|
            0 <= j1 < j2 < r.len() && (#[trigger] r[j1]).0 == (#[trigger] r[j2]).0 ==> r[j1].1
                < r[j2].1,
    ensures
        r[j].1 <= j,
    decreases n - j,
{
    if j < n - 1 {
        lemma_place_at_most(r, n, j + 1);
        assert(r[j].0 == r[j + 1].0);
    }
}

/// The merge of no table gives nothing, and leaves the sink as it was.
pub proof fn lemma_merge_of_nothing<O: ByteOrder>(out: OutputView)
    ensures
        merge_order::<O>(Seq::empty()).len() == 0,
        emit_from(out, Seq::empty(), 0) == (out, None::<ErrorKind>),
{
}

/// Whether `sorted` is the index that `bytes` hold, sorted in the order
/// `O`: its entries are those that the bytes decode to, each as often as
/// there, and they stand in order, entries with one key by offset.
pub open spec fn is_sorted_index<K: CborItem, O: SortKey<K>>(bytes: Seq<u8>, sorted: Seq<(K, u64)>) -> bool {
    &&& sorted_in::<K, O>(sorted)
    &&& exists|loaded: Seq<(K, u64)>|
        {
            &&& decode_index(K::kind(), bytes) == Ok::<Seq<(Scalar, u64)>, ErrorKind>(
                #[trigger] index_entries(loaded),
            )
            &&& sorted.to_multiset() == loaded.to_multiset()
        }
}

/// Loads an index from the bytes of an index file and sorts it in the
/// order `O`, as a merge in that order needs it.
///
/// Fails exactly when the index does not load, with its error.
pub fn get_sorted_sstable_index_in<K: CborItem, O: SortKey<K>>(index: Vec<u8>) -> (r: Result<
    SSTableIndex<K>,
    Error,
>)
    ensures
        match decode_index(K::kind(), index@) {
            Ok(_) => r is Ok && is_sorted_index::<K, O>(index@, r->Ok_0.indices@),
            Err(e) => r is Err && r->Err_0.kind == e,
        },
{
    let mut sstable_index: SSTableIndex<K> = match SSTableIndex::<K>::from_bytes(index) {
        Ok(sstable_index) => sstable_index,
        Err(e) => {
            return Err(e);
        },
    };
    let ghost loaded = sstable_index.indices@;
    sort_in::<K, O>(&mut sstable_index.indices);
    assert(decode_index(K::kind(), index@) == Ok::<Seq<(Scalar, u64)>, ErrorKind>(
        index_entries(loaded),
    ));
    Ok(sstable_index)
}

/// Loads an index from the bytes of an index file and sorts it in the
/// natural order of its keys.
///
/// Fails exactly when the index does not load, with its error.
pub fn get_sorted_sstable_index<K: Key>(index: Vec<u8>) -> (r: Result<SSTableIndex<K>, Error>)
    ensures
        match decode_index(K::kind(), index@) {
            Ok(_) => r is Ok && is_sorted_index::<K, Natural>(index@, r->Ok_0.indices@),
            Err(e) => r is Err && r->Err_0.kind == e,
        },
{
    get_sorted_sstable_index_in::<K, Natural>(index)
}

/// For each table, given as the bytes of its data file and of its index
/// file, a reader at the start of the data and the index sorted in the
/// order `O`.
///
/// Fails exactly when an index does not load, with the error of the first
/// that does not.
pub fn get_sorted_sstable_index_pairs_in<K: CborItem, V, O: SortKey<K>>(inputs: Vec<(Vec<u8>, Vec<u8>)>) -> (r: Result<
    SSTableIndexPairs<K, V>,
    Error,
>)
    ensures
        r is Ok ==> {
            &&& r->Ok_0@.len() == inputs@.len()
            &&& forall|i: int|
                0 <= i < inputs@.len() ==> {
                    &&& (#[trigger] r->Ok_0@[i]).0@ == (CursorView { bytes: inputs@[i].0@, pos: 0 })
                    &&& is_sorted_index::<K, O>(inputs@[i].1@, r->Ok_0@[i].1.indices@)
                }
        },
        r is Ok <==> forall|i: int|
            0 <= i < inputs@.len() ==> decode_index(K::kind(), (#[trigger] inputs@[i]).1@) is Ok,
        r is Err ==> exists|i: int|
            {
                &&& 0 <= i < inputs@.len()
                &&& decode_index(K::kind(), (#[trigger] inputs@[i]).1@) == Err::<
                    Seq<(Scalar, u64)>,
                    ErrorKind,
                >(r->Err_0.kind)
                &&& forall|j: int| 0 <= j < i ==> decode_index(K::kind(), (#[trigger] inputs@[j]).1@) is Ok
            },
{
    let mut left: Vec<(Vec<u8>, Vec<u8>)> = inputs;
    let mut pairs: SSTableIndexPairs<K, V> = Vec::new();
    let count: usize = left.len();
    while pairs.len() < count
        invariant
            count == inputs@.len(),
            pairs@.len() <= count,
            left@ == inputs@.skip(pairs@.len() as int),
            forall|i: int|
                0 <= i < pairs@.len() ==> {
                    &&& (#[trigger] pairs@[i]).0@ == (CursorView { bytes: inputs@[i].0@, pos: 0 })
                    &&& is_sorted_index::<K, O>(inputs@[i].1@, pairs@[i].1.indices@)
                    &&& decode_index(K::kind(), inputs@[i].1@) is Ok
                },
        decreases count - pairs@.len(),
    {
        let ghost done = pairs@.len() as int;
        let input: (Vec<u8>, Vec<u8>) = left.remove(0);
        assert(input == inputs@[done]);
        assert(left@ =~= inputs@.skip(done + 1));
        let reader: SSTableReader<(K, V)> = SSTableReader::from_bytes(input.0);
        let sstable_index: SSTableIndex<K> = match get_sorted_sstable_index_in::<K, O>(input.1) {
            Ok(sstable_index) => sstable_index,
            Err(e) => {
                proof {
                    assert forall|j: int| 0 <= j < done implies decode_index(
                        K::kind(),
                        (#[trigger] inputs@[j]).1@,
                    ) is Ok by {
                        assert(pairs@[j].0@.pos == 0);
                    }
                    assert(decode_index(K::kind(), inputs@[done].1@) == Err::<
                        Seq<(Scalar, u64)>,
                        ErrorKind,
                    >(e.kind));
                }
                return Err(e);
            },
        };
        pairs.push((reader, sstable_index));
    }
    assert forall|i: int| 0 <= i < inputs@.len() implies decode_index(
        K::kind(),
        (#[trigger] inputs@[i]).1@,
    ) is Ok by {
        assert(pairs@[i].0@.pos == 0);
    }
    Ok(pairs)
}

/// For each table, given as the bytes of its data file and of its index
/// file, a reader at the start of the data and the index sorted in the
/// natural order of its keys.
///
/// Fails exactly when an index does not load, with the error of the first
/// that does not.
pub fn get_sorted_sstable_index_pairs<K: Key, V>(inputs: Vec<(Vec<u8>, Vec<u8>)>) -> (r: Result<
    SSTableIndexPairs<K, V>,
    Error,
>)
    ensures
        r is Ok ==> {
            &&& r->Ok_0@.len() == inputs@.len()
            &&& forall|i: int|
                0 <= i < inputs@.len() ==> {
                    &&& (#[trigger] r->Ok_0@[i]).0@ == (CursorView { bytes: inputs@[i].0@, pos: 0 })
                    &&& is_sorted_index::<K, Natural>(inputs@[i].1@, r->Ok_0@[i].1.indices@)
                }
        },
        r is Ok <==> forall|i: int|
            0 <= i < inputs@.len() ==> decode_index(K::kind(), (#[trigger] inputs@[i]).1@) is Ok,
        r is Err ==> exists|i: int|
            {
                &&& 0 <= i < inputs@.len()
                &&& decode_index(K::kind(), (#[trigger] inputs@[i]).1@) == Err::<
                    Seq<(Scalar, u64)>,
                    ErrorKind,
                >(r->Err_0.kind)
                &&& forall|j: int| 0 <= j < i ==> decode_index(K::kind(), (#[trigger] inputs@[j]).1@) is Ok
            },
{
    get_sorted_sstable_index_pairs_in::<K, V, Natural>(inputs)
}

} // verus!
