//! The canonical order of encoded values (RFC 7049, section 3.9): of two
//! encodings the shorter one comes first, and encodings of one length are
//! ordered byte by byte. With it come the sort, the sortedness test and the
//! search of an index by the encodings of its keys.

use crate::cbor::CborWrite;
use crate::order::{
    first_difference, is_first_match, is_sorted_in, keys_of, keys_sorted, lemma_lex_transitive,
    lemma_lex_trichotomy, lex_lt, search_first_in, sort_in, sorted_in, step_back_in, ByteOrder,
    SortKey, encoded,
};
use core::cmp::Ordering;
use vstd::prelude::*;

verus! {

/// The canonical order on encodings: shorter first, then byte by byte.
pub open spec fn canonical_lt(a: Seq<u8>, b: Seq<u8>) -> bool {
    a.len() < b.len() || (a.len() == b.len() && lex_lt(a, b))
}

/// Of two encodings exactly one holds: the first comes before the second,
/// they are equal, or the second comes before the first.
pub proof fn lemma_canonical_trichotomy(a: Seq<u8>, b: Seq<u8>)
    ensures
        canonical_lt(a, b) || a == b || canonical_lt(b, a),
        !(canonical_lt(a, b) && canonical_lt(b, a)),
        !(canonical_lt(a, b) && a == b),
{
    lemma_lex_trichotomy(a, b, 0);
    if a.len() == b.len() {
        assert(a.subrange(0, a.len() as int) =~= a);
        assert(b.subrange(0, b.len() as int) =~= b);
    }
}

/// The canonical order is transitive.
pub proof fn lemma_canonical_transitive(a: Seq<u8>, b: Seq<u8>, c: Seq<u8>)
    requires
        canonical_lt(a, b),
        canonical_lt(b, c),
    ensures
        canonical_lt(a, c),
{
    if a.len() == b.len() && b.len() == c.len() {
        lemma_lex_transitive(a, b, c, 0);
    }
}

/// Compares two encodings in canonical order.
pub fn cbor_byte_cmp(a: &[u8], b: &[u8]) -> (r: Ordering)
    ensures
        (r == Ordering::Less) == canonical_lt(a@, b@),
        (r == Ordering::Equal) == (a@ == b@),
        (r == Ordering::Greater) == canonical_lt(b@, a@),
{
    proof {
        lemma_canonical_trichotomy(a@, b@);
    }
    if a.len() < b.len() {
        return Ordering::Less;
    }
    if a.len() > b.len() {
        return Ordering::Greater;
    }
    let i: usize = first_difference(a, b);
    if i == a.len() {
        assert(a@ =~= b@);
        Ordering::Equal
    } else if a[i] < b[i] {
        Ordering::Less
    } else {
        Ordering::Greater
    }
}

/// The canonical order: keys are ordered by their encodings, shorter
/// first, then byte by byte.
pub struct Canonical;

impl ByteOrder for Canonical {
    open spec fn lt(a: Seq<u8>, b: Seq<u8>) -> bool {
        canonical_lt(a, b)
    }

    proof fn lemma_trichotomy(a: Seq<u8>, b: Seq<u8>) {
        lemma_canonical_trichotomy(a, b);
    }

    proof fn lemma_transitive(a: Seq<u8>, b: Seq<u8>, c: Seq<u8>) {
        lemma_canonical_transitive(a, b, c);
    }

    fn sign(a: &[u8], b: &[u8]) -> (r: i8) {
        match cbor_byte_cmp(a, b) {
            Ordering::Less => -1,
            Ordering::Equal => 0,
            Ordering::Greater => 1,
        }
    }
}

impl<K: CborWrite> SortKey<K> for Canonical {
    open spec fn sort_key(key: K) -> Seq<u8> {
        key.scalar().encoding()
    }

    fn write_sort_key(key: &K, buf: &mut Vec<u8>) {
        buf.clear();
        key.cbor_write(buf);
        assert(buf@ =~= key.scalar().encoding());
    }
}

/// Whether an index is sorted in canonical order: by the encoding of the
/// key, entries with one key by offset.
pub open spec fn cbor_sorted<T: CborWrite>(s: Seq<(T, u64)>) -> bool {
    sorted_in::<T, Canonical>(s)
}

/// Whether `indices` is sorted in canonical order: by the encoding of the
/// key, entries with one key by offset. An index with no entry or one
/// entry is sorted.
pub fn is_cbor_sorted<T: CborWrite>(indices: &[(T, u64)]) -> (r: bool)
    ensures
        r == cbor_sorted(indices@),
{
    is_sorted_in::<T, Canonical>(indices)
}

/// Sorts `indices` in place into canonical order: by the encoding of the
/// key, entries with one key by offset, so that records with one key are
/// met in the order in which they lie in the data.
///
/// The entries are the same as before, each as often as before; only their
/// order changes.
pub fn cbor_sort<T: CborWrite>(indices: &mut Vec<(T, u64)>)
    ensures
        cbor_sorted(final(indices)@),
        final(indices)@.to_multiset() == old(indices)@.to_multiset(),
        encoded::<T, Canonical>(final(indices)@).to_multiset() == encoded::<T, Canonical>(
            old(indices)@,
        ).to_multiset(),
        final(indices)@.len() == old(indices)@.len(),
{
    sort_in::<T, Canonical>(indices)
}

/// The first index of the run of entries that ends at `i` and whose keys
/// all equal the key at `i`.
pub fn step_back_for_duplicates<T: CborWrite>(indices: &[(T, u64)], i: usize) -> (r: usize)
    requires
        i < indices@.len(),
    ensures
        r <= i,
        forall|k: int|
            r <= k <= i ==> #[trigger] indices@[k].0.scalar().encoding()
                == indices@[i as int].0.scalar().encoding(),
        r > 0 ==> indices@[r - 1].0.scalar().encoding() != indices@[i as int].0.scalar().encoding(),
{
    let r: usize = step_back_in::<T, Canonical>(indices, i);
    proof {
        let keys = keys_of::<T, Canonical>(indices@);
        assert forall|k: int| r <= k <= i implies #[trigger] indices@[k].0.scalar().encoding()
            == indices@[i as int].0.scalar().encoding() by {
            assert(keys[k] == keys[i as int]);
        }
    }
    r
}

/// Searches `indices`, whose keys are taken to stand in canonical order,
/// for the key `target`.
///
/// Gives `Ok` with the index of an entry with that key whose predecessor,
/// if it has one, has another key; or `Err` with an index up to the length.
/// Where the keys do stand in canonical order that is the first entry with
/// the key, however many there are, and otherwise the index at which the
/// key would have to be put in.
pub fn cbor_binary_search_first<T: CborWrite, R: CborWrite>(
    indices: &[(T, u64)],
    target: &R,
) -> (r: Result<usize, usize>)
    ensures
        match r {
            Ok(i) => {
                &&& i < indices@.len()
                &&& indices@[i as int].0.scalar().encoding() == target.scalar().encoding()
                &&& i > 0 ==> indices@[i - 1].0.scalar().encoding() != target.scalar().encoding()
            },
            Err(i) => i <= indices@.len(),
        },
        keys_sorted::<T, Canonical>(indices@) ==> is_first_match::<Canonical>(
            keys_of::<T, Canonical>(indices@),
            target.scalar().encoding(),
            r,
        ),
{
    let mut target_buf: Vec<u8> = Vec::new();
    target.cbor_write(&mut target_buf);
    assert(target_buf@ =~= target.scalar().encoding());
    search_first_in::<T, Canonical>(indices, target_buf.as_slice())
}

} // verus!
