//! The natural order of keys: integers by value, byte strings byte by
//! byte, and text by its UTF-8 bytes. A string that another one starts with
//! comes before it.

use crate::cbor::{CborItem, Scalar};
use crate::cbor_types::{
    be_bytes, be_value, lemma_be_bytes_len, lemma_be_value_of_be_bytes, lemma_pow256_of_8, pow256,
    push_be_bytes,
};
use crate::order::{
    first_difference, is_first_match, is_sorted_in, keys_of, keys_sorted, lemma_lex_transitive,
    lemma_lex_trichotomy, lex_lt, lex_lt_from, search_first_in, sort_in, sorted_in, ByteOrder, SortKey, encoded,
};
use crate::sstable_reader::index_entries;
use crate::text::ToText;
use vstd::prelude::*;
use vstd::utf8::encode_utf8;

verus! {

/// The bytes by which a value is ordered: the eight bytes of an integer,
/// most significant first; the bytes of a byte string; the UTF-8 bytes of a
/// text.
pub open spec fn natural_key(s: Scalar) -> Seq<u8> {
    match s {
        Scalar::U64(v) => be_bytes(v as nat, 8),
        Scalar::Bytes(b) => b,
        Scalar::Text(t) => encode_utf8(t),
    }
}

/// Whether `a` comes before `b` in the natural order.
pub open spec fn natural_lt(a: Scalar, b: Scalar) -> bool {
    lex_lt(natural_key(a), natural_key(b))
}

/// The natural order.
pub struct Natural;

impl ByteOrder for Natural {
    open spec fn lt(a: Seq<u8>, b: Seq<u8>) -> bool {
        lex_lt(a, b)
    }

    proof fn lemma_trichotomy(a: Seq<u8>, b: Seq<u8>) {
        lemma_lex_trichotomy(a, b, 0);
        assert(a.subrange(0, a.len() as int) =~= a);
        assert(b.subrange(0, b.len() as int) =~= b);
    }

    proof fn lemma_transitive(a: Seq<u8>, b: Seq<u8>, c: Seq<u8>) {
        lemma_lex_transitive(a, b, c, 0);
    }

    fn sign(a: &[u8], b: &[u8]) -> (r: i8) {
        proof {
            Self::lemma_trichotomy(a@, b@);
        }
        let i: usize = first_difference(a, b);
        if i < a.len() && i < b.len() {
            if a[i] < b[i] {
                -1
            } else {
                1
            }
        } else if i < b.len() {
            -1
        } else if i < a.len() {
            1
        } else {
            assert(a@ =~= b@);
            0
        }
    }
}

/// A kind of value that can serve as the key of a table: it can be
/// written and read, shown as text, ordered and copied.
pub trait Key: CborItem + ToText {
    /// Appends to `buf` the bytes by which the key is ordered.
    fn write_natural_key(&self, buf: &mut Vec<u8>)
        ensures
            final(buf)@ == old(buf)@ + natural_key(self.scalar()),
    ;

    /// A copy of the key.
    fn duplicate(&self) -> (r: Self)
        ensures
            r.scalar() == self.scalar(),
    ;
}

/// Appends every byte of `bytes` to `buf`.
fn append_bytes(buf: &mut Vec<u8>, bytes: &[u8])
    ensures
        final(buf)@ == old(buf)@ + bytes@,
{
    let mut i: usize = 0;
    while i < bytes.len()
        invariant
            i <= bytes@.len(),
            buf@ == old(buf)@ + bytes@.take(i as int),
        decreases bytes@.len() - i,
    {
        buf.push(bytes[i]);
        assert(bytes@.take(i + 1) =~= bytes@.take(i as int).push(bytes@[i as int]));
        i += 1;
    }
    assert(bytes@.take(i as int) =~= bytes@);
}

impl Key for u64 {
    fn write_natural_key(&self, buf: &mut Vec<u8>) {
        push_be_bytes(buf, *self, 8);
    }

    fn duplicate(&self) -> (r: Self) {
        *self
    }
}

impl Key for Vec<u8> {
    fn write_natural_key(&self, buf: &mut Vec<u8>) {
        append_bytes(buf, self.as_slice());
    }

    fn duplicate(&self) -> (r: Self) {
        let mut r: Vec<u8> = Vec::with_capacity(self.len());
        append_bytes(&mut r, self.as_slice());
        assert(r@ =~= self@);
        r
    }
}

impl Key for String {
    fn write_natural_key(&self, buf: &mut Vec<u8>) {
        append_bytes(buf, self.as_str().as_bytes());
    }

    fn duplicate(&self) -> (r: Self) {
        self.clone()
    }
}

impl<K: Key> SortKey<K> for Natural {
    open spec fn sort_key(key: K) -> Seq<u8> {
        natural_key(key.scalar())
    }

    fn write_sort_key(key: &K, buf: &mut Vec<u8>) {
        buf.clear();
        key.write_natural_key(buf);
        assert(buf@ =~= natural_key(key.scalar()));
    }
}

impl Natural {
    /// Where the key `a` stands to the key `b` in the natural order: -1
    /// before it, 0 equal to it, 1 after it.
    pub fn sign_of<K: Key>(a: &K, b: &K) -> (r: i8)
        ensures
            -1 <= r <= 1,
            (r == -1) == natural_lt(a.scalar(), b.scalar()),
            (r == 0) == (natural_key(a.scalar()) == natural_key(b.scalar())),
            (r == 1) == natural_lt(b.scalar(), a.scalar()),
    {
        let mut a_buf: Vec<u8> = Vec::new();
        let mut b_buf: Vec<u8> = Vec::new();
        a.write_natural_key(&mut a_buf);
        b.write_natural_key(&mut b_buf);
        assert(a_buf@ =~= natural_key(a.scalar()));
        assert(b_buf@ =~= natural_key(b.scalar()));
        Natural::sign(a_buf.as_slice(), b_buf.as_slice())
    }
}

/// Two values of one kind with the same bytes to be ordered by are the
/// same value.
pub proof fn lemma_natural_key_injective(a: Scalar, b: Scalar)
    requires
        a.major_type() == b.major_type(),
        natural_key(a) == natural_key(b),
    ensures
        a == b,
{
    match (a, b) {
        (Scalar::U64(x), Scalar::U64(y)) => {
            lemma_be_value_of_be_bytes(x as nat, 8);
            lemma_be_value_of_be_bytes(y as nat, 8);
            lemma_pow256_of_8();
            vstd::arithmetic::div_mod::lemma_small_mod(x as nat, pow256(8));
            vstd::arithmetic::div_mod::lemma_small_mod(y as nat, pow256(8));
        },
        (Scalar::Text(x), Scalar::Text(y)) => {
            vstd::utf8::encode_utf8_decode_utf8(x);
            vstd::utf8::encode_utf8_decode_utf8(y);
        },
        _ => {},
    }
}

/// Whether an index is sorted in the natural order of its keys, entries
/// with one key by offset.
pub open spec fn natural_sorted<K: Key>(s: Seq<(K, u64)>) -> bool {
    sorted_in::<K, Natural>(s)
}

/// Whether `indices` is sorted in the natural order of its keys, entries
/// with one key by offset.
pub fn is_natural_sorted<K: Key>(indices: &[(K, u64)]) -> (r: bool)
    ensures
        r == natural_sorted(indices@),
{
    is_sorted_in::<K, Natural>(indices)
}

/// Sorts `indices` in place into the natural order of its keys, entries
/// with one key by offset. The entries are the same as before, each as
/// often as before.
pub fn natural_sort<K: Key>(indices: &mut Vec<(K, u64)>)
    ensures
        natural_sorted(final(indices)@),
        final(indices)@.to_multiset() == old(indices)@.to_multiset(),
        encoded::<K, Natural>(final(indices)@).to_multiset() == encoded::<K, Natural>(
            old(indices)@,
        ).to_multiset(),
        final(indices)@.len() == old(indices)@.len(),
{
    sort_in::<K, Natural>(indices)
}

/// The first place from `i` on at which `entries` hold the key `key`.
pub open spec fn first_with_key_from(entries: Seq<(Scalar, u64)>, key: Scalar, i: int) -> Option<int>
    decreases entries.len() - i,
{
    if i < 0 || i >= entries.len() {
        None
    } else if entries[i].0 == key {
        Some(i)
    } else {
        first_with_key_from(entries, key, i + 1)
    }
}

/// The first place at which `entries` hold the key `key`.
pub open spec fn first_with_key(entries: Seq<(Scalar, u64)>, key: Scalar) -> Option<int> {
    first_with_key_from(entries, key, 0)
}

/// A first place that is found lies in the index, from `i` on, and holds
/// the key.
pub proof fn lemma_first_with_key_is_in_range(entries: Seq<(Scalar, u64)>, key: Scalar, i: int)
    requires
        0 <= i,
    ensures
        match first_with_key_from(entries, key, i) {
            Some(at) => i <= at < entries.len() && entries[at].0 == key,
            None => true,
        },
    decreases entries.len() - i,
{
    if i < entries.len() && entries[i].0 != key {
        lemma_first_with_key_is_in_range(entries, key, i + 1);
    }
}

/// Where no entry from `i` up to `j` holds the key, the first place from
/// `i` on is the first place from `j` on.
pub proof fn lemma_first_with_key_skips(entries: Seq<(Scalar, u64)>, key: Scalar, i: int, j: int)
    requires
        0 <= i <= j <= entries.len(),
        forall|k: int| i <= k < j ==> (#[trigger] entries[k]).0 != key,
    ensures
        first_with_key_from(entries, key, i) == first_with_key_from(entries, key, j),
    decreases j - i,
{
    if i < j {
        lemma_first_with_key_skips(entries, key, i + 1, j);
    }
}

/// Searches `indices`, whose keys are taken to stand in natural order, for
/// the key `target`.
///
/// Gives `Ok` with the index of an entry with that key whose predecessor,
/// if it has one, has another key; or `Err` with an index up to the length.
/// Where the keys do stand in natural order that is the first entry with
/// the key, however many there are, and otherwise the index at which the
/// key would have to be put in.
pub fn natural_binary_search_first<K: Key>(indices: &[(K, u64)], target: &K) -> (r: Result<
    usize,
    usize,
>)
    ensures
        match r {
            Ok(i) => {
                &&& i < indices@.len()
                &&& indices@[i as int].0.scalar() == target.scalar()
                &&& i > 0 ==> indices@[i - 1].0.scalar() != target.scalar()
            },
            Err(i) => i <= indices@.len(),
        },
        keys_sorted::<K, Natural>(indices@) ==> is_first_match::<Natural>(
            keys_of::<K, Natural>(indices@),
            natural_key(target.scalar()),
            r,
        ),
        keys_sorted::<K, Natural>(indices@) ==> first_with_key(
            index_entries(indices@),
            target.scalar(),
        ) == match r {
            Ok(i) => Some(i as int),
            Err(_) => None,
        },
{
    let mut target_buf: Vec<u8> = Vec::new();
    target.write_natural_key(&mut target_buf);
    assert(target_buf@ =~= natural_key(target.scalar()));
    let r: Result<usize, usize> = search_first_in::<K, Natural>(indices, target_buf.as_slice());
    proof {
        let keys = keys_of::<K, Natural>(indices@);
        let entries = index_entries(indices@);
        let t = natural_key(target.scalar());
        target.lemma_kind();
        match r {
            Ok(i) => {
                indices@[i as int].0.lemma_kind();
                assert(keys[i as int] == t);
                lemma_natural_key_injective(indices@[i as int].0.scalar(), target.scalar());
                if i > 0 {
                    assert(keys[i - 1] != t);
                }
            },
            Err(_) => {},
        }
        if keys_sorted::<K, Natural>(indices@) {
            match r {
                Ok(i) => {
                    assert forall|k: int| 0 <= k < i implies (#[trigger] entries[k]).0
                        != target.scalar() by {
                        assert(lex_lt(keys[k], t));
                        Natural::lemma_trichotomy(keys[k], t);
                    }
                    lemma_first_with_key_skips(entries, target.scalar(), 0, i as int);
                },
                Err(i) => {
                    assert forall|k: int| 0 <= k < entries.len() implies (#[trigger] entries[k]).0
                        != target.scalar() by {
                        Natural::lemma_trichotomy(keys[k], t);
                        if k < i {
                            assert(lex_lt(keys[k], t));
                        } else {
                            assert(lex_lt(t, keys[k]));
                        }
                    }
                    lemma_first_with_key_skips(entries, target.scalar(), 0, entries.len() as int);
                },
            }
        }
    }
    r
}

/// Whether the keys of `entries` stand in natural order: none comes
/// before a key that stands before it in the index.
pub open spec fn entries_in_order(entries: Seq<(Scalar, u64)>) -> bool {
    forall|i: int, j: int|
        0 <= i < j < entries.len() ==> !natural_lt(
            (#[trigger] entries[j]).0,
            (#[trigger] entries[i]).0,
        )
}

/// The keys of an index stand in the order of the natural order exactly
/// when none comes before a key that stands before it.
pub proof fn lemma_entries_in_order<K: Key>(s: Seq<(K, u64)>)
    ensures
        keys_sorted::<K, Natural>(s) == entries_in_order(index_entries(s)),
{
    let keys = keys_of::<K, Natural>(s);
    let entries = index_entries(s);
    if keys_sorted::<K, Natural>(s) {
        assert forall|i: int, j: int| 0 <= i < j < entries.len() implies !natural_lt(
            (#[trigger] entries[j]).0,
            (#[trigger] entries[i]).0,
        ) by {
            assert(crate::order::key_order::<Natural>()(keys[i], keys[j]));
            Natural::lemma_trichotomy(keys[i], keys[j]);
        }
    }
    if entries_in_order(entries) {
        assert forall|i: int, j: int| 0 <= i < j < keys.len() implies #[trigger] crate::order::key_order::<
            Natural,
        >()(keys[i], keys[j]) by {
            assert(!natural_lt(entries[j].0, entries[i].0));
            Natural::lemma_trichotomy(keys[i], keys[j]);
        }
    }
}

/// For two strings of one length, the order from `i` on is decided before
/// the last byte, or else by the last byte.
proof fn lemma_lex_by_last(x: Seq<u8>, y: Seq<u8>, i: int)
    requires
        x.len() == y.len(),
        x.len() >= 1,
        0 <= i < x.len(),
    ensures
        lex_lt_from(x, y, i) == (lex_lt_from(x.drop_last(), y.drop_last(), i) || (
        x.drop_last().subrange(i, x.len() - 1) == y.drop_last().subrange(i, y.len() - 1)
            && x.last() < y.last())),
    decreases x.len() - i,
{
    let n = x.len() as int;
    let xs = x.drop_last();
    let ys = y.drop_last();
    let sx = xs.subrange(i, n - 1);
    let sy = ys.subrange(i, n - 1);
    if i == n - 1 {
        assert(sx =~= sy);
        assert(!lex_lt_from(x, y, n));
        assert(!lex_lt_from(xs, ys, i));
    } else {
        assert(sx[0] == x[i]);
        assert(sy[0] == y[i]);
        assert(xs[i] == x[i]);
        assert(ys[i] == y[i]);
        if x[i] == y[i] {
            lemma_lex_by_last(x, y, i + 1);
            let tx = xs.subrange(i + 1, n - 1);
            let ty = ys.subrange(i + 1, n - 1);
            assert(sx =~= seq![x[i]] + tx);
            assert(sy =~= seq![y[i]] + ty);
            if sx == sy {
                assert(tx =~= sx.skip(1));
                assert(ty =~= sy.skip(1));
            }
        }
    }
}

/// Strings of one length are ordered byte by byte as the numbers that they
/// spell, most significant byte first, are ordered by value.
pub proof fn lemma_lex_is_numeric(x: Seq<u8>, y: Seq<u8>)
    requires
        x.len() == y.len(),
    ensures
        lex_lt(x, y) == (be_value(x) < be_value(y)),
        (x == y) == (be_value(x) == be_value(y)),
    decreases x.len(),
{
    if x.len() == 0 {
        assert(x =~= y);
    } else {
        let n = x.len() as int;
        let xs = x.drop_last();
        let ys = y.drop_last();
        lemma_lex_is_numeric(xs, ys);
        lemma_lex_by_last(x, y, 0);
        assert(xs.subrange(0, n - 1) =~= xs);
        assert(ys.subrange(0, n - 1) =~= ys);
        if xs == ys && x.last() == y.last() {
            assert(x =~= xs.push(x.last()));
            assert(y =~= ys.push(y.last()));
        }
    }
}

/// The natural order of integers is their order by value.
pub proof fn lemma_natural_order_of_integers(a: u64, b: u64)
    ensures
        natural_lt(Scalar::U64(a), Scalar::U64(b)) == (a < b),
{
    let x = be_bytes(a as nat, 8);
    let y = be_bytes(b as nat, 8);
    lemma_be_bytes_len(a as nat, 8);
    lemma_be_bytes_len(b as nat, 8);
    lemma_be_value_of_be_bytes(a as nat, 8);
    lemma_be_value_of_be_bytes(b as nat, 8);
    lemma_pow256_of_8();
    vstd::arithmetic::div_mod::lemma_small_mod(a as nat, pow256(8));
    vstd::arithmetic::div_mod::lemma_small_mod(b as nat, pow256(8));
    lemma_lex_is_numeric(x, y);
}

} // verus!
