//! Orders of keys, and what an index needs of them: a test for sortedness,
//! a sort, and a search for the first entry with a key.
//!
//! An order compares keys by their sort keys, which are strings of bytes.
//! An index entry is a key with the offset of its record: entries are
//! ordered by key, and entries with one key by their offset.

use vstd::prelude::*;
use vstd::relations::{sorted_by, total_ordering};
use vstd::multiset::Multiset;
use vstd::seq_lib::to_multiset_build;

verus! {

/// A strict total order on strings of bytes.
pub trait ByteOrder {
    /// Whether `a` comes before `b`.
    spec fn lt(a: Seq<u8>, b: Seq<u8>) -> bool;

    /// Of two strings exactly one holds: the first comes before the
    /// second, they are equal, or the second comes before the first.
    proof fn lemma_trichotomy(a: Seq<u8>, b: Seq<u8>)
        ensures
            Self::lt(a, b) || a == b || Self::lt(b, a),
            !(Self::lt(a, b) && Self::lt(b, a)),
            !(Self::lt(a, b) && a == b),
    ;

    /// The order is transitive.
    proof fn lemma_transitive(a: Seq<u8>, b: Seq<u8>, c: Seq<u8>)
        requires
            Self::lt(a, b),
            Self::lt(b, c),
        ensures
            Self::lt(a, c),
    ;

    /// Where `a` stands to `b`: -1 before it, 0 equal to it, 1 after it.
    fn sign(a: &[u8], b: &[u8]) -> (r: i8)
        ensures
            -1 <= r <= 1,
            (r == -1) == Self::lt(a@, b@),
            (r == 0) == (a@ == b@),
            (r == 1) == Self::lt(b@, a@),
    ;
}

/// An order on keys of type `K`: a key is ordered by its sort key.
pub trait SortKey<K>: ByteOrder {
    /// The bytes by which `key` is ordered.
    spec fn sort_key(key: K) -> Seq<u8>;

    /// Writes the sort key of `key` into `buf`, in place of what it held.
    fn write_sort_key(key: &K, buf: &mut Vec<u8>)
        ensures
            final(buf)@ == Self::sort_key(*key),
    ;
}

/// Lexicographic order from index `i` on: `a` comes before `b` where `a`
/// has ended and `b` has not, or at the first index where they differ `a`
/// holds the smaller byte.
pub open spec fn lex_lt_from(a: Seq<u8>, b: Seq<u8>, i: int) -> bool
    decreases a.len() - i,
{
    if i >= b.len() {
        false
    } else if i >= a.len() {
        true
    } else if a[i] != b[i] {
        a[i] < b[i]
    } else {
        lex_lt_from(a, b, i + 1)
    }
}

/// Lexicographic order on bytes.
pub open spec fn lex_lt(a: Seq<u8>, b: Seq<u8>) -> bool {
    lex_lt_from(a, b, 0)
}

/// Of two byte strings that agree before `i`, at most one comes before the
/// other from `i` on, and if neither does they are the same from `i` on.
pub proof fn lemma_lex_trichotomy(a: Seq<u8>, b: Seq<u8>, i: int)
    requires
        0 <= i <= a.len(),
        i <= b.len(),
    ensures
        !(lex_lt_from(a, b, i) && lex_lt_from(b, a, i)),
        !lex_lt_from(a, b, i) && !lex_lt_from(b, a, i) ==> a.subrange(i, a.len() as int)
            == b.subrange(i, b.len() as int),
        a.subrange(i, a.len() as int) == b.subrange(i, b.len() as int) ==> !lex_lt_from(a, b, i)
            && !lex_lt_from(b, a, i),
    decreases a.len() - i,
{
    let sa = a.subrange(i, a.len() as int);
    let sb = b.subrange(i, b.len() as int);
    if i < a.len() && i < b.len() {
        assert(sa[0] == a[i]);
        assert(sb[0] == b[i]);
        if a[i] == b[i] {
            lemma_lex_trichotomy(a, b, i + 1);
            let ta = a.subrange(i + 1, a.len() as int);
            let tb = b.subrange(i + 1, b.len() as int);
            assert(sa =~= seq![a[i]] + ta);
            assert(sb =~= seq![b[i]] + tb);
            if sa == sb {
                assert(ta =~= sa.skip(1));
                assert(tb =~= sb.skip(1));
            }
        }
    } else if i < a.len() {
        assert(sa.len() != sb.len());
    } else if i < b.len() {
        assert(sa.len() != sb.len());
    } else {
        assert(sa =~= sb);
    }
}

/// Lexicographic order from `i` on is transitive.
pub proof fn lemma_lex_transitive(a: Seq<u8>, b: Seq<u8>, c: Seq<u8>, i: int)
    requires
        0 <= i,
        lex_lt_from(a, b, i),
        lex_lt_from(b, c, i),
    ensures
        lex_lt_from(a, c, i),
    decreases a.len() - i,
{
    if i < a.len() && a[i] == b[i] && b[i] == c[i] {
        lemma_lex_transitive(a, b, c, i + 1);
    }
}

/// The index of the first byte in which `a` and `b` differ, or the length
/// of the shorter one where there is none.
pub fn first_difference(a: &[u8], b: &[u8]) -> (i: usize)
    ensures
        i <= a@.len(),
        i <= b@.len(),
        forall|k: int| 0 <= k < i ==> a@[k] == b@[k],
        i < a@.len() && i < b@.len() ==> a@[i as int] != b@[i as int],
        lex_lt(a@, b@) == lex_lt_from(a@, b@, i as int),
        lex_lt(b@, a@) == lex_lt_from(b@, a@, i as int),
{
    let mut i: usize = 0;
    while i < a.len() && i < b.len() && a[i] == b[i]
        invariant
            i <= a@.len(),
            i <= b@.len(),
            forall|k: int| 0 <= k < i ==> a@[k] == b@[k],
            lex_lt(a@, b@) == lex_lt_from(a@, b@, i as int),
            lex_lt(b@, a@) == lex_lt_from(b@, a@, i as int),
        decreases a@.len() - i,
    {
        i += 1;
    }
    i
}

/// The order of index entries under `O`, each given as its sort key and
/// its offset: by key, then by offset.
pub open spec fn entry_le<O: ByteOrder>(a: (Seq<u8>, u64), b: (Seq<u8>, u64)) -> bool {
    O::lt(a.0, b.0) || (a.0 == b.0 && a.1 <= b.1)
}

/// `entry_le` as a relation.
pub open spec fn entry_order<O: ByteOrder>() -> spec_fn((Seq<u8>, u64), (Seq<u8>, u64)) -> bool {
    |a: (Seq<u8>, u64), b: (Seq<u8>, u64)| entry_le::<O>(a, b)
}

/// The order of sort keys alone: before, or equal.
pub open spec fn key_order<O: ByteOrder>() -> spec_fn(Seq<u8>, Seq<u8>) -> bool {
    |a: Seq<u8>, b: Seq<u8>| O::lt(a, b) || a == b
}

/// The order of index entries is transitive.
pub proof fn lemma_entry_le_transitive<O: ByteOrder>(a: (Seq<u8>, u64), b: (Seq<u8>, u64), c: (Seq<u8>, u64))
    requires
        entry_le::<O>(a, b),
        entry_le::<O>(b, c),
    ensures
        entry_le::<O>(a, c),
{
    if O::lt(a.0, b.0) && O::lt(b.0, c.0) {
        O::lemma_transitive(a.0, b.0, c.0);
    }
}

/// Any two index entries are ordered, one way or the other; entries ordered
/// both ways are equal.
pub proof fn lemma_entry_le_total<O: ByteOrder>(a: (Seq<u8>, u64), b: (Seq<u8>, u64))
    ensures
        entry_le::<O>(a, b) || entry_le::<O>(b, a),
        entry_le::<O>(a, b) && entry_le::<O>(b, a) ==> a == b,
{
    O::lemma_trichotomy(a.0, b.0);
}

/// The order of index entries is a total order.
pub proof fn lemma_entry_order_is_total<O: ByteOrder>()
    ensures
        total_ordering(entry_order::<O>()),
{
    let r = entry_order::<O>();
    assert forall|x: (Seq<u8>, u64)| #[trigger] r(x, x) by {}
    assert forall|x: (Seq<u8>, u64), y: (Seq<u8>, u64)| #[trigger] r(x, y) && #[trigger] r(y, x) implies x == y by {
        lemma_entry_le_total::<O>(x, y);
    }
    assert forall|x: (Seq<u8>, u64), y: (Seq<u8>, u64), z: (Seq<u8>, u64)| #[trigger]
        r(x, y) && #[trigger] r(y, z) implies r(x, z) by {
        lemma_entry_le_transitive::<O>(x, y, z);
    }
    assert forall|x: (Seq<u8>, u64), y: (Seq<u8>, u64)| #[trigger] r(x, y) || #[trigger] r(y, x) by {
        lemma_entry_le_total::<O>(x, y);
    }
}

/// An index entry as the order sees it: the sort key of its key, and its
/// offset.
pub open spec fn entry_bytes<K, O: SortKey<K>>(e: (K, u64)) -> (Seq<u8>, u64) {
    (O::sort_key(e.0), e.1)
}

/// The entries of an index as the order sees them.
pub open spec fn encoded<K, O: SortKey<K>>(s: Seq<(K, u64)>) -> Seq<(Seq<u8>, u64)> {
    s.map_values(|e: (K, u64)| entry_bytes::<K, O>(e))
}

/// The sort keys of an index.
pub open spec fn keys_of<K, O: SortKey<K>>(s: Seq<(K, u64)>) -> Seq<Seq<u8>> {
    s.map_values(|e: (K, u64)| O::sort_key(e.0))
}

/// Whether an index is sorted under `O`: by key, entries with one key by
/// offset.
pub open spec fn sorted_in<K, O: SortKey<K>>(s: Seq<(K, u64)>) -> bool {
    sorted_by(encoded::<K, O>(s), entry_order::<O>())
}

/// Whether the keys of an index stand in the order of `O`, whatever the
/// offsets.
pub open spec fn keys_sorted<K, O: SortKey<K>>(s: Seq<(K, u64)>) -> bool {
    sorted_by(keys_of::<K, O>(s), key_order::<O>())
}

/// In a sorted index the keys stand in order.
pub proof fn lemma_sorted_keys<K, O: SortKey<K>>(s: Seq<(K, u64)>)
    requires
        sorted_in::<K, O>(s),
    ensures
        keys_sorted::<K, O>(s),
{
    let e = encoded::<K, O>(s);
    let k = keys_of::<K, O>(s);
    assert forall|i: int, j: int| 0 <= i < j < k.len() implies #[trigger] key_order::<O>()(
        k[i],
        k[j],
    ) by {
        assert(entry_order::<O>()(e[i], e[j]));
    }
}

/// Whether entry `a` comes strictly before entry `b`. The two buffers are
/// scratch space.
fn entry_precedes<K, O: SortKey<K>>(
    a: &(K, u64),
    b: &(K, u64),
    a_buf: &mut Vec<u8>,
    b_buf: &mut Vec<u8>,
) -> (r: bool)
    ensures
        r == !entry_le::<O>(entry_bytes::<K, O>(*b), entry_bytes::<K, O>(*a)),
        r ==> entry_le::<O>(entry_bytes::<K, O>(*a), entry_bytes::<K, O>(*b)),
{
    O::write_sort_key(&a.0, a_buf);
    O::write_sort_key(&b.0, b_buf);
    proof {
        O::lemma_trichotomy(a_buf@, b_buf@);
    }
    let sign: i8 = O::sign(a_buf.as_slice(), b_buf.as_slice());
    sign < 0 || (sign == 0 && a.1 < b.1)
}

/// Where `key` stands to the sort key `target`: -1 before it, 0 equal to
/// it, 1 after it. `buf` is scratch space.
fn key_sign<K, O: SortKey<K>>(key: &K, target: &[u8], buf: &mut Vec<u8>) -> (r: i8)
    ensures
        -1 <= r <= 1,
        (r == -1) == O::lt(O::sort_key(*key), target@),
        (r == 0) == (O::sort_key(*key) == target@),
        (r == 1) == O::lt(target@, O::sort_key(*key)),
{
    O::write_sort_key(key, buf);
    O::sign(buf.as_slice(), target)
}

/// A sorted run that is followed by an entry no smaller than its last one
/// is a sorted run still.
proof fn lemma_sorted_extend<O: ByteOrder>(e: Seq<(Seq<u8>, u64)>, i: int)
    requires
        0 < i < e.len(),
        sorted_by(e.take(i), entry_order::<O>()),
        entry_le::<O>(e[i - 1], e[i]),
    ensures
        sorted_by(e.take(i + 1), entry_order::<O>()),
{
    let prefix = e.take(i);
    let next = e.take(i + 1);
    assert forall|a: int, b: int| 0 <= a < b < next.len() implies #[trigger] entry_order::<O>()(
        next[a],
        next[b],
    ) by {
        if b < i {
            assert(entry_order::<O>()(prefix[a], prefix[b]));
        } else if a < i - 1 {
            assert(entry_order::<O>()(prefix[a], prefix[i - 1]));
            lemma_entry_le_transitive::<O>(e[a], e[i - 1], e[i]);
        }
    }
}

/// Whether `indices` is sorted under `O`: by key, entries with one key by
/// offset. An index with no entry or one entry is sorted.
pub fn is_sorted_in<K, O: SortKey<K>>(indices: &[(K, u64)]) -> (r: bool)
    ensures
        r == sorted_in::<K, O>(indices@),
{
    let mut a_buf: Vec<u8> = Vec::new();
    let mut b_buf: Vec<u8> = Vec::new();
    let ghost e = encoded::<K, O>(indices@);
    if indices.len() < 2 {
        return true;
    }
    let mut i: usize = 1;
    while i < indices.len()
        invariant
            1 <= i <= indices@.len(),
            e == encoded::<K, O>(indices@),
            sorted_by(e.take(i as int), entry_order::<O>()),
        decreases indices@.len() - i,
    {
        if entry_precedes::<K, O>(&indices[i], &indices[i - 1], &mut a_buf, &mut b_buf) {
            assert(!entry_order::<O>()(e[i - 1], e[i as int]));
            return false;
        }
        proof {
            lemma_sorted_extend::<O>(e, i as int);
        }
        i += 1;
    }
    assert(e.take(i as int) =~= e);
    true
}

/// Whether the keys of `indices` stand in the order of `O`, whatever the
/// offsets: no key comes before the key of an entry before it.
pub fn has_keys_sorted_in<K, O: SortKey<K>>(indices: &[(K, u64)]) -> (r: bool)
    ensures
        r == keys_sorted::<K, O>(indices@),
{
    let mut a_buf: Vec<u8> = Vec::new();
    let mut b_buf: Vec<u8> = Vec::new();
    let ghost keys = keys_of::<K, O>(indices@);
    if indices.len() < 2 {
        return true;
    }
    let mut i: usize = 1;
    while i < indices.len()
        invariant
            1 <= i <= indices@.len(),
            keys == keys_of::<K, O>(indices@),
            sorted_by(keys.take(i as int), key_order::<O>()),
        decreases indices@.len() - i,
    {
        O::write_sort_key(&indices[i].0, &mut a_buf);
        O::write_sort_key(&indices[i - 1].0, &mut b_buf);
        proof {
            O::lemma_trichotomy(keys[i as int], keys[i - 1]);
        }
        if O::sign(a_buf.as_slice(), b_buf.as_slice()) < 0 {
            assert(!key_order::<O>()(keys[i - 1], keys[i as int]));
            return false;
        }
        proof {
            let run = keys.take(i as int);
            let next = keys.take(i + 1);
            assert forall|a: int, b: int| 0 <= a < b < next.len() implies #[trigger] key_order::<O>()(
                next[a],
                next[b],
            ) by {
                if b < i {
                    assert(key_order::<O>()(run[a], run[b]));
                } else if a < i - 1 {
                    assert(key_order::<O>()(run[a], run[i - 1]));
                    if keys[a] != keys[i - 1] && keys[i - 1] != keys[i as int] {
                        O::lemma_transitive(keys[a], keys[i - 1], keys[i as int]);
                    }
                }
            }
        }
        i += 1;
    }
    assert(keys.take(i as int) =~= keys);
    true
}

/// Whether `e` stands in falling order: no entry comes before one that
/// stands behind it.
pub open spec fn falling<O: ByteOrder>(e: Seq<(Seq<u8>, u64)>) -> bool {
    forall|i: int, j: int| 0 <= i < j < e.len() ==> entry_le::<O>(#[trigger] e[j], #[trigger] e[i])
}

/// Whether no entry of `e` comes after `x`.
pub open spec fn all_le<O: ByteOrder>(e: Seq<(Seq<u8>, u64)>, x: (Seq<u8>, u64)) -> bool {
    forall|i: int| 0 <= i < e.len() ==> entry_le::<O>(#[trigger] e[i], x)
}

/// A sequence without entries holds nothing.
proof fn lemma_nothing_holds_nothing<A>(s: Seq<A>)
    requires
        s.len() == 0,
    ensures
        s.to_multiset() == Multiset::<A>::empty(),
{
    broadcast use vstd::multiset::group_multiset_axioms;

    s.to_multiset_ensures();
    assert forall|a: A| s.to_multiset().count(a) == 0 by {
        if s.to_multiset().count(a) > 0 {
            assert(s.contains(a));
        }
    }
    assert(s.to_multiset() =~= Multiset::<A>::empty());
}

/// What two multisets hold together stays what it is where a third stands
/// between them.
proof fn lemma_add_aside<A>(x: Multiset<A>, y: Multiset<A>, x0: Multiset<A>, y0: Multiset<A>, z: Multiset<A>)
    requires
        x.add(y) == x0.add(y0),
    ensures
        x.add(z).add(y) == x0.add(z).add(y0),
{
    broadcast use vstd::multiset::group_multiset_axioms;

    assert forall|v: A| x.add(z).add(y).count(v) == x0.add(z).add(y0).count(v) by {
        assert(x.add(y).count(v) == x0.add(y0).count(v));
        assert(x.add(y).count(v) == x.count(v) + y.count(v));
        assert(x0.add(y0).count(v) == x0.count(v) + y0.count(v));
        assert(x.add(z).count(v) == x.count(v) + z.count(v));
        assert(x0.add(z).count(v) == x0.count(v) + z.count(v));
        assert(x.add(z).add(y).count(v) == x.add(z).count(v) + y.count(v));
        assert(x0.add(z).add(y0).count(v) == x0.add(z).count(v) + y0.count(v));
    }
    assert(x.add(z).add(y) =~= x0.add(z).add(y0));
}

/// Moving the last entry of one sequence to the end of another keeps the
/// entries that the two hold together.
proof fn lemma_move_last<A>(from: Seq<A>, to: Seq<A>)
    requires
        from.len() > 0,
    ensures
        to.push(from.last()).to_multiset().add(from.drop_last().to_multiset()) == to.to_multiset().add(
            from.to_multiset(),
        ),
{
    broadcast use vstd::multiset::group_multiset_axioms;

    to_multiset_build(to, from.last());
    to_multiset_build(from.drop_last(), from.last());
    assert(from.drop_last().push(from.last()) =~= from);
    assert(to.push(from.last()).to_multiset().add(from.drop_last().to_multiset()) =~= to.to_multiset().add(
        from.to_multiset(),
    ));
}

/// The entries of a run without its last are the entries as the order sees
/// them, without the last.
proof fn lemma_encoded_last<K, O: SortKey<K>>(s: Seq<(K, u64)>)
    requires
        s.len() > 0,
    ensures
        encoded::<K, O>(s.drop_last()) == encoded::<K, O>(s).drop_last(),
        encoded::<K, O>(s).last() == entry_bytes::<K, O>(s.last()),
        forall|t: Seq<(K, u64)>| #[trigger]
            encoded::<K, O>(t.push(s.last())) == encoded::<K, O>(t).push(entry_bytes::<K, O>(s.last())),
{
    assert(encoded::<K, O>(s.drop_last()) =~= encoded::<K, O>(s).drop_last());
    assert forall|t: Seq<(K, u64)>| #[trigger]
        encoded::<K, O>(t.push(s.last())) == encoded::<K, O>(t).push(
            entry_bytes::<K, O>(s.last()),
        ) by {
        assert(encoded::<K, O>(t.push(s.last())) =~= encoded::<K, O>(t).push(
            entry_bytes::<K, O>(s.last()),
        ));
    }
}

/// Where the last entry of the sorted run `from` is no smaller than the
/// last entry of the sorted run `other`, it is the greatest entry of both,
/// and it can go out behind the entries that went out before, which are no
/// smaller than any entry of the two runs.
proof fn lemma_greatest_goes_out<O: ByteOrder>(
    from: Seq<(Seq<u8>, u64)>,
    other: Seq<(Seq<u8>, u64)>,
    out: Seq<(Seq<u8>, u64)>,
)
    requires
        from.len() > 0,
        sorted_by(from, entry_order::<O>()),
        sorted_by(other, entry_order::<O>()),
        falling::<O>(out),
        out.len() > 0 ==> all_le::<O>(from, out.last()) && all_le::<O>(other, out.last()),
        other.len() > 0 ==> entry_le::<O>(other.last(), from.last()),
    ensures
        sorted_by(from.drop_last(), entry_order::<O>()),
        falling::<O>(out.push(from.last())),
        all_le::<O>(from.drop_last(), from.last()),
        all_le::<O>(other, from.last()),
{
    let x = from.last();
    let rest = from.drop_last();
    let grown = out.push(x);
    assert forall|i: int, j: int| 0 <= i < j < rest.len() implies #[trigger] entry_order::<O>()(
        rest[i],
        rest[j],
    ) by {
        assert(entry_order::<O>()(from[i], from[j]));
    }
    assert forall|i: int, j: int| 0 <= i < j < grown.len() implies entry_le::<O>(
        #[trigger] grown[j],
        #[trigger] grown[i],
    ) by {
        if j < out.len() {
            assert(entry_le::<O>(out[j], out[i]));
        } else {
            assert(entry_le::<O>(from[from.len() - 1], out.last()));
            if i < out.len() - 1 {
                assert(entry_le::<O>(out[out.len() - 1], out[i]));
                lemma_entry_le_transitive::<O>(x, out.last(), out[i]);
            }
        }
    }
    assert forall|i: int| 0 <= i < rest.len() implies entry_le::<O>(#[trigger] rest[i], x) by {
        assert(entry_order::<O>()(from[i], from[from.len() - 1]));
    }
    assert forall|i: int| 0 <= i < other.len() implies entry_le::<O>(#[trigger] other[i], x) by {
        let last = other[other.len() - 1];
        if i < other.len() - 1 {
            assert(entry_order::<O>()(other[i], other[other.len() - 1]));
            lemma_entry_le_transitive::<O>(other[i], last, x);
        }
    }
}

/// Takes the last entry of `from` and puts it behind the entries of `to`.
fn move_last<K, O: SortKey<K>>(from: &mut Vec<(K, u64)>, to: &mut Vec<(K, u64)>)
    requires
        old(from)@.len() > 0,
    ensures
        final(from)@ == old(from)@.drop_last(),
        final(to)@ == old(to)@.push(old(from)@.last()),
        final(to)@.to_multiset().add(final(from)@.to_multiset()) == old(to)@.to_multiset().add(
            old(from)@.to_multiset(),
        ),
        encoded::<K, O>(final(to)@).to_multiset().add(encoded::<K, O>(final(from)@).to_multiset())
            == encoded::<K, O>(old(to)@).to_multiset().add(encoded::<K, O>(old(from)@).to_multiset()),
        encoded::<K, O>(final(from)@) == encoded::<K, O>(old(from)@).drop_last(),
        encoded::<K, O>(final(to)@) == encoded::<K, O>(old(to)@).push(
            encoded::<K, O>(old(from)@).last(),
        ),
{
    proof {
        lemma_move_last(from@, to@);
        lemma_encoded_last::<K, O>(from@);
        lemma_move_last(encoded::<K, O>(from@), encoded::<K, O>(to@));
    }
    match from.pop() {
        Some(entry) => {
            assert(from@ =~= old(from)@.drop_last());
            to.push(entry);
        },
        None => {},
    }
}

/// Merges two sorted runs into one: the entries of both, in order.
fn merge_runs<K, O: SortKey<K>>(
    left: Vec<(K, u64)>,
    right: Vec<(K, u64)>,
    a_buf: &mut Vec<u8>,
    b_buf: &mut Vec<u8>,
) -> (r: Vec<(K, u64)>)
    requires
        sorted_in::<K, O>(left@),
        sorted_in::<K, O>(right@),
    ensures
        sorted_in::<K, O>(r@),
        r@.len() == left@.len() + right@.len(),
        r@.to_multiset() == left@.to_multiset().add(right@.to_multiset()),
        encoded::<K, O>(r@).to_multiset() == encoded::<K, O>(left@).to_multiset().add(
            encoded::<K, O>(right@).to_multiset(),
        ),
{
    broadcast use vstd::multiset::group_multiset_axioms;

    let mut a: Vec<(K, u64)> = left;
    let mut b: Vec<(K, u64)> = right;
    let mut out: Vec<(K, u64)> = Vec::new();
    let ghost total = left@.to_multiset().add(right@.to_multiset());
    let ghost total_e = encoded::<K, O>(left@).to_multiset().add(encoded::<K, O>(right@).to_multiset());
    proof {
        lemma_nothing_holds_nothing(out@);
        assert(encoded::<K, O>(out@) =~= Seq::<(Seq<u8>, u64)>::empty());
        lemma_nothing_holds_nothing(encoded::<K, O>(out@));
        assert(out@.to_multiset().add(a@.to_multiset()).add(b@.to_multiset()) =~= total);
        assert(encoded::<K, O>(out@).to_multiset().add(encoded::<K, O>(a@).to_multiset()).add(
            encoded::<K, O>(b@).to_multiset(),
        ) =~= total_e);
    }
    // The greater of the two last entries goes out first, so the entries
    // go out in falling order.
    while a.len() > 0 || b.len() > 0
        invariant
            sorted_in::<K, O>(a@),
            sorted_in::<K, O>(b@),
            falling::<O>(encoded::<K, O>(out@)),
            out@.len() > 0 ==> all_le::<O>(encoded::<K, O>(a@), encoded::<K, O>(out@).last())
                && all_le::<O>(encoded::<K, O>(b@), encoded::<K, O>(out@).last()),
            out@.len() + a@.len() + b@.len() == left@.len() + right@.len(),
            out@.to_multiset().add(a@.to_multiset()).add(b@.to_multiset()) == total,
            encoded::<K, O>(out@).to_multiset().add(encoded::<K, O>(a@).to_multiset()).add(
                encoded::<K, O>(b@).to_multiset(),
            ) == total_e,
        decreases a@.len() + b@.len(),
    {
        let ghost ea = encoded::<K, O>(a@);
        let ghost eb = encoded::<K, O>(b@);
        let ghost eo = encoded::<K, O>(out@);
        let ghost oa = a@;
        let ghost ob = b@;
        let ghost oo = out@;
        let from_a: bool = if a.len() == 0 {
            false
        } else if b.len() == 0 {
            true
        } else {
            entry_precedes::<K, O>(&b[b.len() - 1], &a[a.len() - 1], a_buf, b_buf)
        };
        if from_a {
            move_last::<K, O>(&mut a, &mut out);
            proof {
                lemma_greatest_goes_out::<O>(ea, eb, eo);
            }
        } else {
            move_last::<K, O>(&mut b, &mut out);
            proof {
                lemma_greatest_goes_out::<O>(eb, ea, eo);
                lemma_add_aside(
                    out@.to_multiset(),
                    b@.to_multiset(),
                    oo.to_multiset(),
                    ob.to_multiset(),
                    oa.to_multiset(),
                );
                lemma_add_aside(
                    encoded::<K, O>(out@).to_multiset(),
                    encoded::<K, O>(b@).to_multiset(),
                    eo.to_multiset(),
                    eb.to_multiset(),
                    ea.to_multiset(),
                );
            }
        }
    }
    proof {
        lemma_nothing_holds_nothing(a@);
        lemma_nothing_holds_nothing(b@);
        assert(encoded::<K, O>(a@) =~= Seq::<(Seq<u8>, u64)>::empty());
        assert(encoded::<K, O>(b@) =~= Seq::<(Seq<u8>, u64)>::empty());
        lemma_nothing_holds_nothing(encoded::<K, O>(a@));
        lemma_nothing_holds_nothing(encoded::<K, O>(b@));
        assert(out@.to_multiset() =~= total);
        assert(encoded::<K, O>(out@).to_multiset() =~= total_e);
    }
    // Turn the falling run round.
    let mut r: Vec<(K, u64)> = Vec::new();
    proof {
        lemma_nothing_holds_nothing(r@);
        assert(encoded::<K, O>(r@) =~= Seq::<(Seq<u8>, u64)>::empty());
        lemma_nothing_holds_nothing(encoded::<K, O>(r@));
        assert(r@.to_multiset().add(out@.to_multiset()) =~= total);
        assert(encoded::<K, O>(r@).to_multiset().add(encoded::<K, O>(out@).to_multiset()) =~= total_e);
    }
    while out.len() > 0
        invariant
            falling::<O>(encoded::<K, O>(out@)),
            sorted_in::<K, O>(r@),
            r@.len() > 0 && out@.len() > 0 ==> entry_le::<O>(
                encoded::<K, O>(r@).last(),
                encoded::<K, O>(out@).last(),
            ),
            r@.len() + out@.len() == left@.len() + right@.len(),
            r@.to_multiset().add(out@.to_multiset()) == total,
            encoded::<K, O>(r@).to_multiset().add(encoded::<K, O>(out@).to_multiset()) == total_e,
        decreases out@.len(),
    {
        let ghost er = encoded::<K, O>(r@);
        let ghost eo = encoded::<K, O>(out@);
        move_last::<K, O>(&mut out, &mut r);
        proof {
            let x = eo.last();
            assert(falling::<O>(eo.drop_last())) by {
                assert forall|i: int, j: int| 0 <= i < j < eo.drop_last().len() implies entry_le::<O>(
                    #[trigger] eo.drop_last()[j],
                    #[trigger] eo.drop_last()[i],
                ) by {
                    assert(entry_le::<O>(eo[j], eo[i]));
                }
            }
            assert(sorted_by(er.push(x), entry_order::<O>())) by {
                assert forall|i: int, j: int| 0 <= i < j < er.push(x).len() implies #[trigger] entry_order::<
                    O,
                >()(er.push(x)[i], er.push(x)[j]) by {
                    if j < er.len() {
                        assert(entry_order::<O>()(er[i], er[j]));
                    } else if i < er.len() - 1 {
                        assert(entry_order::<O>()(er[i], er[er.len() - 1]));
                        lemma_entry_le_transitive::<O>(er[i], er.last(), x);
                    }
                }
            }
            if eo.len() > 1 {
                assert(entry_le::<O>(eo[eo.len() - 1], eo[eo.len() - 2]));
            }
        }
    }
    proof {
        lemma_nothing_holds_nothing(out@);
        assert(encoded::<K, O>(out@) =~= Seq::<(Seq<u8>, u64)>::empty());
        lemma_nothing_holds_nothing(encoded::<K, O>(out@));
        assert(r@.to_multiset() =~= total);
        assert(encoded::<K, O>(r@).to_multiset() =~= total_e);
    }
    r
}

/// Sorts a run: halves it, sorts the halves, and merges them.
fn sort_run<K, O: SortKey<K>>(run: Vec<(K, u64)>, a_buf: &mut Vec<u8>, b_buf: &mut Vec<u8>) -> (r: Vec<
    (K, u64),
>)
    ensures
        sorted_in::<K, O>(r@),
        r@.len() == run@.len(),
        r@.to_multiset() == run@.to_multiset(),
        encoded::<K, O>(r@).to_multiset() == encoded::<K, O>(run@).to_multiset(),
    decreases run@.len(),
{
    if run.len() < 2 {
        return run;
    }
    let mut left: Vec<(K, u64)> = run;
    let half: usize = left.len() / 2;
    let right: Vec<(K, u64)> = left.split_off(half);
    proof {
        assert(left@ + right@ =~= run@);
        assert(encoded::<K, O>(left@) + encoded::<K, O>(right@) =~= encoded::<K, O>(run@));
        vstd::seq_lib::lemma_multiset_commutative(left@, right@);
        vstd::seq_lib::lemma_multiset_commutative(encoded::<K, O>(left@), encoded::<K, O>(right@));
    }
    let left: Vec<(K, u64)> = sort_run::<K, O>(left, a_buf, b_buf);
    let right: Vec<(K, u64)> = sort_run::<K, O>(right, a_buf, b_buf);
    merge_runs::<K, O>(left, right, a_buf, b_buf)
}

/// Sorts `indices` in place under `O`: by key, entries with one key by
/// offset, so that records with one key are met in the order in which they
/// lie in the data.
///
/// The entries are the same as before, each as often as before; only their
/// order changes.
pub fn sort_in<K, O: SortKey<K>>(indices: &mut Vec<(K, u64)>)
    ensures
        sorted_in::<K, O>(final(indices)@),
        final(indices)@.to_multiset() == old(indices)@.to_multiset(),
        encoded::<K, O>(final(indices)@).to_multiset() == encoded::<K, O>(old(indices)@).to_multiset(),
        final(indices)@.len() == old(indices)@.len(),
{
    if is_sorted_in::<K, O>(indices.as_slice()) {
        return ;
    }
    let mut a_buf: Vec<u8> = Vec::new();
    let mut b_buf: Vec<u8> = Vec::new();
    let mut run: Vec<(K, u64)> = Vec::new();
    core::mem::swap(indices, &mut run);
    let mut sorted: Vec<(K, u64)> = sort_run::<K, O>(run, &mut a_buf, &mut b_buf);
    core::mem::swap(indices, &mut sorted);
}

/// The first index of the run of entries that ends at `i` and whose keys
/// all equal the key at `i`.
pub fn step_back_in<K, O: SortKey<K>>(indices: &[(K, u64)], i: usize) -> (r: usize)
    requires
        i < indices@.len(),
    ensures
        r <= i,
        forall|k: int| r <= k <= i ==> #[trigger] keys_of::<K, O>(indices@)[k] == keys_of::<K, O>(indices@)[i as int],
        r > 0 ==> keys_of::<K, O>(indices@)[r - 1] != keys_of::<K, O>(indices@)[i as int],
{
    let mut a_buf: Vec<u8> = Vec::new();
    let mut b_buf: Vec<u8> = Vec::new();
    let ghost keys = keys_of::<K, O>(indices@);
    O::write_sort_key(&indices[i].0, &mut b_buf);
    let mut r: usize = i;
    while r > 0
        invariant
            r <= i < indices@.len(),
            keys == keys_of::<K, O>(indices@),
            b_buf@ == keys[i as int],
            forall|k: int| r <= k <= i ==> #[trigger] keys[k] == keys[i as int],
        decreases r,
    {
        if key_sign::<K, O>(&indices[r - 1].0, b_buf.as_slice(), &mut a_buf) != 0 {
            return r;
        }
        r -= 1;
    }
    r
}

/// What a search for the sort key `target` among `keys` has to give where
/// the keys stand in order: the first index that holds the
/// key, or else the index at which it would have to be put in.
pub open spec fn is_first_match<O: ByteOrder>(keys: Seq<Seq<u8>>, target: Seq<u8>, r: Result<usize, usize>) -> bool {
    match r {
        Ok(i) => {
            &&& i < keys.len()
            &&& keys[i as int] == target
            &&& forall|k: int| 0 <= k < i ==> O::lt(#[trigger] keys[k], target)
        },
        Err(i) => {
            &&& i <= keys.len()
            &&& forall|k: int| 0 <= k < i ==> O::lt(#[trigger] keys[k], target)
            &&& forall|k: int| i <= k < keys.len() ==> O::lt(target, #[trigger] keys[k])
        },
    }
}

/// Searches `indices`, whose keys are taken to stand in the order of `O`,
/// for the sort key `target`.
///
/// Gives `Ok` with the index of an entry with that key whose predecessor,
/// if it has one, has another key; or `Err` with an index up to the length.
/// Where the keys do stand in order that is the first entry with
/// the key, however many there are, and otherwise the index at which the
/// key would have to be put in.
pub fn search_first_in<K, O: SortKey<K>>(
    indices: &[(K, u64)],
    target: &[u8],
) -> (r: Result<usize, usize>)
    ensures
        match r {
            Ok(i) => {
                &&& i < indices@.len()
                &&& keys_of::<K, O>(indices@)[i as int] == target@
                &&& i > 0 ==> keys_of::<K, O>(indices@)[i - 1] != target@
            },
            Err(i) => i <= indices@.len(),
        },
        keys_sorted::<K, O>(indices@) ==> is_first_match::<O>(keys_of::<K, O>(indices@), target@, r),
{
    let mut key_buf: Vec<u8> = Vec::new();
    let ghost keys = keys_of::<K, O>(indices@);
    let ghost t = target@;
    let mut lo: usize = 0;
    let mut hi: usize = indices.len();
    while lo < hi
        invariant
            0 <= lo <= hi <= indices@.len(),
            keys == keys_of::<K, O>(indices@),
            t == target@,
            keys_sorted::<K, O>(indices@) ==> forall|k: int| 0 <= k < lo ==> O::lt(#[trigger] keys[k], t),
            keys_sorted::<K, O>(indices@) ==> forall|k: int|
                hi <= k < keys.len() ==> O::lt(t, #[trigger] keys[k]),
        decreases hi - lo,
    {
        let mid: usize = lo + (hi - lo) / 2;
        let sign: i8 = key_sign::<K, O>(&indices[mid].0, target, &mut key_buf);
        if sign == 0 {
            let first: usize = step_back_in::<K, O>(indices, mid);
            proof {
                assert(keys[mid as int] == t);
                assert(keys[first as int] == keys[mid as int]);
                if keys_sorted::<K, O>(indices@) {
                    assert forall|k: int| 0 <= k < first implies O::lt(#[trigger] keys[k], t) by {
                        assert(key_order::<O>()(keys[first - 1], keys[first as int]));
                        if k < first - 1 {
                            assert(key_order::<O>()(keys[k], keys[first - 1]));
                            if keys[k] != keys[first - 1] {
                                O::lemma_transitive(keys[k], keys[first - 1], t);
                            }
                        }
                    }
                }
            }
            return Ok(first);
        } else if sign < 0 {
            proof {
                if keys_sorted::<K, O>(indices@) {
                    assert forall|k: int| 0 <= k < mid + 1 implies O::lt(#[trigger] keys[k], t) by {
                        if k < mid {
                            assert(key_order::<O>()(keys[k], keys[mid as int]));
                            if keys[k] != keys[mid as int] {
                                O::lemma_transitive(keys[k], keys[mid as int], t);
                            }
                        }
                    }
                }
            }
            lo = mid + 1;
        } else {
            proof {
                if keys_sorted::<K, O>(indices@) {
                    assert forall|k: int| mid <= k < keys.len() implies O::lt(t, #[trigger] keys[k]) by {
                        if k > mid {
                            assert(key_order::<O>()(keys[mid as int], keys[k]));
                            if keys[k] != keys[mid as int] {
                                O::lemma_transitive(t, keys[mid as int], keys[k]);
                            }
                        }
                    }
                }
            }
            hi = mid;
        }
    }
    Err(lo)
}

/// A key that an index in order holds is found, and at the first
/// place where it stands: whatever meets `is_first_match` for it is `Ok`
/// with the smallest index that holds the key.
pub proof fn lemma_first_match_is_smallest<O: ByteOrder>(keys: Seq<Seq<u8>>, target: Seq<u8>, r: Result<usize, usize>, at: int)
    requires
        is_first_match::<O>(keys, target, r),
        0 <= at < keys.len(),
        keys[at] == target,
    ensures
        r is Ok,
        r->Ok_0 <= at,
        keys[r->Ok_0 as int] == target,
{
    O::lemma_trichotomy(keys[at], target);
    match r {
        Ok(i) => {
            if at < i {
                assert(O::lt(keys[at], target));
            }
        },
        Err(i) => {
            if at < i {
                assert(O::lt(keys[at], target));
            } else {
                assert(O::lt(target, keys[at]));
            }
        },
    }
}

/// The entries of an index have one sorted arrangement only: two sorted
/// indexes with the same entries agree place by place, in keys and in
/// offsets. So sorting what is sorted already changes nothing, and sorting
/// twice gives what sorting once gives.
pub proof fn lemma_sorted_arrangement_is_unique<K, O: SortKey<K>>(a: Seq<(K, u64)>, b: Seq<(K, u64)>)
    requires
        sorted_in::<K, O>(a),
        sorted_in::<K, O>(b),
        encoded::<K, O>(a).to_multiset() == encoded::<K, O>(b).to_multiset(),
    ensures
        encoded::<K, O>(a) == encoded::<K, O>(b),
{
    lemma_entry_order_is_total::<O>();
    vstd::seq_lib::lemma_sorted_unique(encoded::<K, O>(a), encoded::<K, O>(b), entry_order::<O>());
}

} // verus!
