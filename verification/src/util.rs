//! Small tests on slices: whether neighbours stand in a given relation,
//! and the least and the greatest entry of an index.

use crate::natural::{lemma_natural_key_injective, natural_lt, Key, Natural};
use crate::order::{
    encoded, entry_le, lemma_entry_le_total, lemma_entry_le_transitive, ByteOrder,
};
use core::cmp::Ordering;
use vstd::prelude::*;

verus! {

/// Whether `compare` holds of each item of `slice` and the item after it.
/// The test ends at the first pair of which it does not hold.
pub fn is_sorted_by<T, F: Fn(&T, &T) -> bool>(slice: &[T], compare: F) -> (r: bool)
    requires
        forall|i: int|
            #![trigger slice@[i]]
            0 <= i < slice@.len() - 1 ==> call_requires(compare, (&slice@[i], &slice@[i + 1])),
    ensures
        r ==> forall|i: int|
            #![trigger slice@[i]]
            0 <= i < slice@.len() - 1 ==> call_ensures(
                compare,
                (&slice@[i], &slice@[i + 1]),
                true,
            ),
        !r ==> exists|i: int|
            #![trigger slice@[i]]
            0 <= i < slice@.len() - 1 && call_ensures(
                compare,
                (&slice@[i], &slice@[i + 1]),
                false,
            ),
{
    if slice.len() < 2 {
        return true;
    }
    let mut i: usize = 0;
    while i < slice.len() - 1
        invariant
            slice@.len() >= 2,
            i <= slice@.len() - 1,
            forall|k: int|
                #![trigger slice@[k]]
                0 <= k < slice@.len() - 1 ==> call_requires(
                    compare,
                    (&slice@[k], &slice@[k + 1]),
                ),
            forall|k: int|
                #![trigger slice@[k]]
                0 <= k < i ==> call_ensures(compare, (&slice@[k], &slice@[k + 1]), true),
        decreases slice@.len() - i,
    {
        if !compare(&slice[i], &slice[i + 1]) {
            assert(call_ensures(compare, (&slice@[i as int], &slice@[i + 1]), false));
            return false;
        }
        i += 1;
    }
    true
}

/// Whether `compare` holds of no item of `slice` and the item before it,
/// taken in that order. The test ends at the first pair of which it holds.
pub fn is_unique<T, F: Fn(&T, &T) -> bool>(slice: &[T], compare: F) -> (r: bool)
    requires
        forall|i: int|
            #![trigger slice@[i]]
            0 <= i < slice@.len() - 1 ==> call_requires(compare, (&slice@[i + 1], &slice@[i])),
    ensures
        r ==> forall|i: int|
            #![trigger slice@[i]]
            0 <= i < slice@.len() - 1 ==> call_ensures(
                compare,
                (&slice@[i + 1], &slice@[i]),
                false,
            ),
        !r ==> exists|i: int|
            #![trigger slice@[i]]
            0 <= i < slice@.len() - 1 && call_ensures(
                compare,
                (&slice@[i + 1], &slice@[i]),
                true,
            ),
{
    if slice.len() < 2 {
        return true;
    }
    let mut i: usize = 0;
    while i < slice.len() - 1
        invariant
            slice@.len() >= 2,
            i <= slice@.len() - 1,
            forall|k: int|
                #![trigger slice@[k]]
                0 <= k < slice@.len() - 1 ==> call_requires(
                    compare,
                    (&slice@[k + 1], &slice@[k]),
                ),
            forall|k: int|
                #![trigger slice@[k]]
                0 <= k < i ==> call_ensures(compare, (&slice@[k + 1], &slice@[k]), false),
        decreases slice@.len() - i,
    {
        if compare(&slice[i + 1], &slice[i]) {
            assert(call_ensures(compare, (&slice@[i + 1], &slice@[i as int]), true));
            return false;
        }
        i += 1;
    }
    true
}

/// The least and the greatest entry of `slice` in the natural order of the
/// keys, entries with one key by offset; nothing for an empty slice.
pub fn get_min_max<K: Key>(slice: &[(K, u64)]) -> (r: Option<(&(K, u64), &(K, u64))>)
    ensures
        r is None <==> slice@.len() == 0,
        r is Some ==> {
            let e = encoded::<K, Natural>(slice@);
            &&& exists|i: int| 0 <= i < slice@.len() && *r->Some_0.0 == #[trigger] slice@[i]
            &&& exists|i: int| 0 <= i < slice@.len() && *r->Some_0.1 == #[trigger] slice@[i]
            &&& forall|j: int|
                0 <= j < e.len() ==> entry_le::<Natural>(
                    crate::order::entry_bytes::<K, Natural>(*r->Some_0.0),
                    #[trigger] e[j],
                )
            &&& forall|j: int|
                0 <= j < e.len() ==> entry_le::<Natural>(
                    #[trigger] e[j],
                    crate::order::entry_bytes::<K, Natural>(*r->Some_0.1),
                )
        },
{
    if slice.len() == 0 {
        return None;
    }
    let ghost e = encoded::<K, Natural>(slice@);
    let mut min: usize = 0;
    let mut max: usize = 0;
    let mut i: usize = 1;
    proof {
        lemma_entry_le_total::<Natural>(e[0], e[0]);
    }
    while i < slice.len()
        invariant
            1 <= i <= slice@.len(),
            min < i,
            max < i,
            e == encoded::<K, Natural>(slice@),
            forall|j: int| 0 <= j < i ==> entry_le::<Natural>(e[min as int], #[trigger] e[j]),
            forall|j: int| 0 <= j < i ==> entry_le::<Natural>(#[trigger] e[j], e[max as int]),
        decreases slice@.len() - i,
    {
        let below: bool = entry_before(&slice[i], &slice[min]);
        let above: bool = entry_before(&slice[max], &slice[i]);
        proof {
            lemma_entry_le_total::<Natural>(e[i as int], e[min as int]);
            lemma_entry_le_total::<Natural>(e[i as int], e[max as int]);
            lemma_entry_le_total::<Natural>(e[i as int], e[i as int]);
            if below {
                assert forall|j: int| 0 <= j < i + 1 implies entry_le::<Natural>(
                    e[i as int],
                    #[trigger] e[j],
                ) by {
                    if j < i {
                        lemma_entry_le_transitive::<Natural>(e[i as int], e[min as int], e[j]);
                    }
                }
            }
            if above {
                assert forall|j: int| 0 <= j < i + 1 implies entry_le::<Natural>(
                    #[trigger] e[j],
                    e[i as int],
                ) by {
                    if j < i {
                        lemma_entry_le_transitive::<Natural>(e[j], e[max as int], e[i as int]);
                    }
                }
            }
        }
        if below {
            min = i;
        }
        if above {
            max = i;
        }
        i += 1;
    }
    Some((&slice[min], &slice[max]))
}

/// Whether the entry `a` comes strictly before the entry `b` in the
/// natural order of the keys, entries with one key by offset.
fn entry_before<K: Key>(a: &(K, u64), b: &(K, u64)) -> (r: bool)
    ensures
        r == !entry_le::<Natural>(
            crate::order::entry_bytes::<K, Natural>(*b),
            crate::order::entry_bytes::<K, Natural>(*a),
        ),
{
    let sign: i8 = Natural::sign_of(&a.0, &b.0);
    proof {
        lemma_entry_le_total::<Natural>(
            crate::order::entry_bytes::<K, Natural>(*a),
            crate::order::entry_bytes::<K, Natural>(*b),
        );
        Natural::lemma_trichotomy(
            crate::natural::natural_key(a.0.scalar()),
            crate::natural::natural_key(b.0.scalar()),
        );
    }
    sign < 0 || (sign == 0 && a.1 < b.1)
}

/// Compares two pairs by their first parts, the keys, in natural order.
pub fn compare_tuples<K: Key, U>(a: &(K, U), b: &(K, U)) -> (r: Ordering)
    ensures
        (r == Ordering::Less) == natural_lt(a.0.scalar(), b.0.scalar()),
        (r == Ordering::Equal) == (a.0.scalar() == b.0.scalar()),
        (r == Ordering::Greater) == natural_lt(b.0.scalar(), a.0.scalar()),
{
    proof {
        a.0.lemma_kind();
        b.0.lemma_kind();
        if crate::natural::natural_key(a.0.scalar()) == crate::natural::natural_key(b.0.scalar()) {
            lemma_natural_key_injective(a.0.scalar(), b.0.scalar());
        }
    }
    let sign: i8 = Natural::sign_of(&a.0, &b.0);
    if sign < 0 {
        Ordering::Less
    } else if sign == 0 {
        Ordering::Equal
    } else {
        Ordering::Greater
    }
}

} // verus!
