//! A min-heap of tables for a merge: each table is queued under the key at
//! which its walk stands, and the heap gives out the table with the
//! smallest key, of tables with one key the one with the smallest number.

use crate::order::ByteOrder;
use core::marker::PhantomData;
use vstd::prelude::*;

verus! {

/// Whether table `a` goes before table `b` or is `b`, where `keys` holds
/// for each table the key under which it is queued: by key in the order
/// `O`, tables with one key by their number.
pub open spec fn table_le<O: ByteOrder>(keys: Seq<Seq<u8>>, a: int, b: int) -> bool {
    O::lt(keys[a], keys[b]) || (keys[a] == keys[b] && a <= b)
}

/// Any two tables are ordered, one way or the other.
pub proof fn lemma_table_le_total<O: ByteOrder>(keys: Seq<Seq<u8>>, a: int, b: int)
    ensures
        table_le::<O>(keys, a, b) || table_le::<O>(keys, b, a),
        table_le::<O>(keys, a, b) && table_le::<O>(keys, b, a) ==> a == b,
{
    O::lemma_trichotomy(keys[a], keys[b]);
}

/// The order of tables is transitive.
pub proof fn lemma_table_le_transitive<O: ByteOrder>(keys: Seq<Seq<u8>>, a: int, b: int, c: int)
    requires
        table_le::<O>(keys, a, b),
        table_le::<O>(keys, b, c),
    ensures
        table_le::<O>(keys, a, c),
{
    if O::lt(keys[a], keys[b]) && O::lt(keys[b], keys[c]) {
        O::lemma_transitive(keys[a], keys[b], keys[c]);
    }
}

/// Whether `slots` is a heap but for the slot `hole` and its parent: every
/// other slot holds a table that does not go before the table in the slot
/// above it.
pub open spec fn heap_but_above<O: ByteOrder>(keys: Seq<Seq<u8>>, slots: Seq<usize>, hole: int) -> bool {
    forall|c: int|
        0 < c < slots.len() && c != hole ==> table_le::<O>(
            keys,
            slots[(c - 1) / 2] as int,
            #[trigger] slots[c] as int,
        )
}

/// Whether `slots` is a heap but for the slot `hole` and the slots below
/// it.
pub open spec fn heap_but_below<O: ByteOrder>(keys: Seq<Seq<u8>>, slots: Seq<usize>, hole: int) -> bool {
    forall|c: int|
        0 < c < slots.len() && (c - 1) / 2 != hole ==> table_le::<O>(
            keys,
            slots[(c - 1) / 2] as int,
            #[trigger] slots[c] as int,
        )
}

/// Whether `slots` is a heap: no slot holds a table that goes before the
/// table in the slot above it.
pub open spec fn is_heap<O: ByteOrder>(keys: Seq<Seq<u8>>, slots: Seq<usize>) -> bool {
    heap_but_above::<O>(keys, slots, 0)
}

/// Whether the slots hold tables that there are, none of them twice.
pub open spec fn slots_valid(keys: Seq<Seq<u8>>, slots: Seq<usize>) -> bool {
    &&& forall|i: int| 0 <= i < slots.len() ==> (#[trigger] slots[i]) < keys.len()
    &&& forall|i: int, j: int|
        0 <= i < j < slots.len() ==> (#[trigger] slots[i]) != (#[trigger] slots[j])
}

/// In a heap no table goes before the one in the first slot.
pub proof fn lemma_root_is_least<O: ByteOrder>(keys: Seq<Seq<u8>>, slots: Seq<usize>, j: int)
    requires
        is_heap::<O>(keys, slots),
        0 <= j < slots.len(),
    ensures
        table_le::<O>(keys, slots[0] as int, slots[j] as int),
    decreases j,
{
    if j == 0 {
        lemma_table_le_total::<O>(keys, slots[0] as int, slots[0] as int);
    } else {
        let p = (j - 1) / 2;
        lemma_root_is_least::<O>(keys, slots, p);
        assert(table_le::<O>(keys, slots[p] as int, slots[j] as int));
        lemma_table_le_transitive::<O>(keys, slots[0] as int, slots[p] as int, slots[j] as int);
    }
}

/// Two slots changing places leaves the tables in the slots what they
/// were.
pub proof fn lemma_swap_keeps_tables(keys: Seq<Seq<u8>>, slots: Seq<usize>, i: int, j: int)
    requires
        slots_valid(keys, slots),
        0 <= i < slots.len(),
        0 <= j < slots.len(),
    ensures
        slots_valid(keys, slots.update(i, slots[j]).update(j, slots[i])),
        slots.update(i, slots[j]).update(j, slots[i]).to_set() == slots.to_set(),
{
    let swapped = slots.update(i, slots[j]).update(j, slots[i]);
    assert forall|a: int, b: int| 0 <= a < b < swapped.len() implies (#[trigger] swapped[a])
        != (#[trigger] swapped[b]) by {
        let a0 = if a == i {
            j
        } else if a == j {
            i
        } else {
            a
        };
        let b0 = if b == i {
            j
        } else if b == j {
            i
        } else {
            b
        };
        assert(swapped[a] == slots[a0]);
        assert(swapped[b] == slots[b0]);
        if a0 < b0 {
            assert(slots[a0] != slots[b0]);
        } else {
            assert(slots[b0] != slots[a0]);
        }
    }
    assert forall|t: usize| swapped.to_set().contains(t) == slots.to_set().contains(t) by {
        if slots.contains(t) {
            let k = choose|k: int| 0 <= k < slots.len() && slots[k] == t;
            let k1 = if k == i {
                j
            } else if k == j {
                i
            } else {
                k
            };
            assert(swapped[k1] == t);
        }
        if swapped.contains(t) {
            let k = choose|k: int| 0 <= k < swapped.len() && swapped[k] == t;
            let k0 = if k == i {
                j
            } else if k == j {
                i
            } else {
                k
            };
            assert(slots[k0] == t);
        }
    }
    assert(swapped.to_set() =~= slots.to_set());
}

/// A min-heap of tables.
pub struct MinHeap<O: ByteOrder> {
    slots: Vec<usize>,
    keys: Vec<Vec<u8>>,
    order: PhantomData<O>,
}

impl<O: ByteOrder> MinHeap<O> {
    /// The tables that are queued.
    pub closed spec fn tables(&self) -> Set<usize> {
        self.slots@.to_set()
    }

    /// For each table the key under which it is queued, or was queued
    /// last.
    pub closed spec fn keys(&self) -> Seq<Seq<u8>> {
        self.keys@.map_values(|k: Vec<u8>| k@)
    }

    /// Whether the heap is in order.
    pub closed spec fn wf(&self) -> bool {
        &&& slots_valid(self.keys(), self.slots@)
        &&& is_heap::<O>(self.keys(), self.slots@)
    }

    /// An empty heap for the tables from 0 up to `tables`.
    pub fn new(tables: usize) -> (heap: Self)
        ensures
            heap.wf(),
            heap.tables() == Set::<usize>::empty(),
            heap.keys().len() == tables,
    {
        let mut keys: Vec<Vec<u8>> = Vec::new();
        while keys.len() < tables
            invariant
                keys@.len() <= tables,
            decreases tables - keys@.len(),
        {
            keys.push(Vec::new());
        }
        let heap = MinHeap { slots: Vec::new(), keys, order: PhantomData };
        assert(heap.slots@.to_set() =~= Set::<usize>::empty());
        heap
    }

    /// The number of tables that are queued.
    pub fn len(&self) -> (n: usize)
        requires
            self.wf(),
        ensures
            n == self.tables().len(),
            (n == 0) == (self.tables() == Set::<usize>::empty()),
    {
        proof {
            self.slots@.unique_seq_to_set();
            if self.slots@.len() == 0 {
                assert(self.slots@.to_set() =~= Set::<usize>::empty());
            } else {
                assert(self.slots@.contains(self.slots@[0]));
            }
        }
        self.slots.len()
    }

    /// The tables that are queued, in the order of the slots of the heap:
    /// first the table that goes before all others.
    pub fn into_vec(self) -> (v: Vec<usize>)
        requires
            self.wf(),
        ensures
            v@.to_set() == self.tables(),
            v@.no_duplicates(),
            forall|j: int|
                0 <= j < v@.len() ==> table_le::<O>(self.keys(), v@[0] as int, #[trigger] v@[j] as int),
    {
        proof {
            assert forall|j: int| 0 <= j < self.slots@.len() implies table_le::<O>(
                self.keys(),
                self.slots@[0] as int,
                #[trigger] self.slots@[j] as int,
            ) by {
                lemma_root_is_least::<O>(self.keys(), self.slots@, j);
            }
        }
        self.slots
    }

    /// Whether the table in slot `a` goes strictly before the one in slot
    /// `b`.
    fn slot_before(&self, a: usize, b: usize) -> (r: bool)
        requires
            slots_valid(self.keys(), self.slots@),
            a < self.slots@.len(),
            b < self.slots@.len(),
        ensures
            r == !table_le::<O>(self.keys(), self.slots@[b as int] as int, self.slots@[a as int] as int),
            r ==> table_le::<O>(self.keys(), self.slots@[a as int] as int, self.slots@[b as int] as int),
    {
        let ta: usize = self.slots[a];
        let tb: usize = self.slots[b];
        proof {
            lemma_table_le_total::<O>(self.keys(), ta as int, tb as int);
            O::lemma_trichotomy(self.keys()[ta as int], self.keys()[tb as int]);
        }
        let sign: i8 = O::sign(self.keys[ta].as_slice(), self.keys[tb].as_slice());
        sign < 0 || (sign == 0 && ta < tb)
    }

    /// Lets the tables in the slots `a` and `b` change places.
    fn swap(&mut self, a: usize, b: usize)
        requires
            slots_valid(old(self).keys(), old(self).slots@),
            a < old(self).slots@.len(),
            b < old(self).slots@.len(),
        ensures
            final(self).slots@ == old(self).slots@.update(a as int, old(self).slots@[b as int]).update(
                b as int,
                old(self).slots@[a as int],
            ),
            final(self).keys() == old(self).keys(),
            slots_valid(final(self).keys(), final(self).slots@),
            final(self).tables() == old(self).tables(),
    {
        proof {
            lemma_swap_keeps_tables(self.keys(), self.slots@, a as int, b as int);
        }
        let ta: usize = self.slots[a];
        let tb: usize = self.slots[b];
        self.slots[a] = tb;
        self.slots[b] = ta;
    }

    /// Queues `table` under `key`.
    pub fn push(&mut self, table: usize, key: Vec<u8>)
        requires
            old(self).wf(),
            table < old(self).keys().len(),
            !old(self).tables().contains(table),
        ensures
            final(self).wf(),
            final(self).tables() == old(self).tables().insert(table),
            final(self).keys() == old(self).keys().update(table as int, key@),
    {
        let ghost old_keys = self.keys();
        let ghost old_slots = self.slots@;
        self.keys[table] = key;
        let ghost keys = self.keys();
        assert(keys =~= old_keys.update(table as int, key@));
        self.slots.push(table);
        let ghost pushed = self.slots@;
        proof {
            // The tables that were queued keep their keys, so what was a
            // heap is one still.
            assert forall|i: int| 0 <= i < old_slots.len() implies old_slots[i] != table by {
                assert(old_slots.contains(old_slots[i]));
            }
            assert(slots_valid(keys, pushed)) by {
                assert forall|i: int, j: int| 0 <= i < j < pushed.len() implies (#[trigger] pushed[i])
                    != (#[trigger] pushed[j]) by {
                    if j < old_slots.len() {
                        assert(old_slots[i] != old_slots[j]);
                    }
                }
            }
            assert(heap_but_above::<O>(keys, pushed, pushed.len() - 1)) by {
                assert forall|c: int| 0 < c < pushed.len() && c != pushed.len() - 1 implies table_le::<O>(
                    keys,
                    pushed[(c - 1) / 2] as int,
                    #[trigger] pushed[c] as int,
                ) by {
                    assert(table_le::<O>(old_keys, old_slots[(c - 1) / 2] as int, old_slots[c] as int));
                }
            }
            assert(pushed.to_set() =~= old_slots.to_set().insert(table)) by {
                assert forall|t: usize| pushed.to_set().contains(t) == old_slots.to_set().insert(
                    table,
                ).contains(t) by {
                    if old_slots.contains(t) {
                        let k = choose|k: int| 0 <= k < old_slots.len() && old_slots[k] == t;
                        assert(pushed[k] == t);
                    }
                    if t == table {
                        assert(pushed[pushed.len() - 1] == t);
                    }
                    if pushed.contains(t) {
                        let k = choose|k: int| 0 <= k < pushed.len() && pushed[k] == t;
                        if k < old_slots.len() {
                            assert(old_slots[k] == t);
                        }
                    }
                }
            }
        }
        let mut hole: usize = self.slots.len() - 1;
        while hole > 0
            invariant
                hole < self.slots@.len(),
                self.keys() == keys,
                slots_valid(keys, self.slots@),
                self.tables() == pushed.to_set(),
                heap_but_above::<O>(keys, self.slots@, hole as int),
                forall|c: int|
                    0 < c < self.slots@.len() && (c - 1) / 2 == hole && hole > 0 ==> table_le::<O>(
                        keys,
                        self.slots@[(hole - 1) / 2] as int,
                        #[trigger] self.slots@[c] as int,
                    ),
            ensures
                self.keys() == keys,
                slots_valid(keys, self.slots@),
                self.tables() == pushed.to_set(),
                is_heap::<O>(keys, self.slots@),
            decreases hole,
        {
            let above: usize = (hole - 1) / 2;
            if !self.slot_before(hole, above) {
                break ;
            }
            let ghost before = self.slots@;
            self.swap(hole, above);
            proof {
                let after = self.slots@;
                let th = before[hole as int] as int;
                let ta = before[above as int] as int;
                assert forall|c: int| 0 < c < after.len() && c != above implies table_le::<O>(
                    keys,
                    after[(c - 1) / 2] as int,
                    #[trigger] after[c] as int,
                ) by {
                    let p = (c - 1) / 2;
                    if c == hole {
                    } else if p == hole {
                        assert(table_le::<O>(keys, before[(hole - 1) / 2] as int, before[c] as int));
                    } else if p == above {
                        assert(table_le::<O>(keys, ta, before[c] as int));
                        lemma_table_le_transitive::<O>(keys, th, ta, before[c] as int);
                    } else {
                        assert(table_le::<O>(keys, before[p] as int, before[c] as int));
                    }
                }
                assert forall|c: int|
                    0 < c < after.len() && (c - 1) / 2 == above && above > 0 implies table_le::<O>(
                    keys,
                    after[(above - 1) / 2] as int,
                    #[trigger] after[c] as int,
                ) by {
                    let pp = (above - 1) / 2;
                    assert(table_le::<O>(keys, before[pp] as int, ta));
                    if c != hole {
                        assert(table_le::<O>(keys, ta, before[c] as int));
                        lemma_table_le_transitive::<O>(keys, before[pp] as int, ta, before[c] as int);
                    }
                }
            }
            hole = above;
        }
    }

    /// Takes out the table that goes before all others, if any is queued.
    pub fn pop(&mut self) -> (r: Option<usize>)
        requires
            old(self).wf(),
        ensures
            final(self).wf(),
            final(self).keys() == old(self).keys(),
            match r {
                None => old(self).tables() == Set::<usize>::empty() && final(self).tables()
                    == old(self).tables(),
                Some(table) => {
                    &&& old(self).tables().contains(table)
                    &&& table < old(self).keys().len()
                    &&& final(self).tables() == old(self).tables().remove(table)
                    &&& forall|t: usize|
                        old(self).tables().contains(t) ==> table_le::<O>(
                            old(self).keys(),
                            table as int,
                            t as int,
                        )
                },
            },
    {
        let ghost keys = self.keys();
        let ghost old_slots = self.slots@;
        let last: usize = match self.slots.pop() {
            Some(last) => last,
            None => {
                assert(old_slots.to_set() =~= Set::<usize>::empty());
                return None;
            },
        };
        proof {
            assert forall|t: usize| old_slots.to_set().contains(t) implies table_le::<O>(
                keys,
                old_slots[0] as int,
                t as int,
            ) by {
                let k = choose|k: int| 0 <= k < old_slots.len() && old_slots[k] == t;
                lemma_root_is_least::<O>(keys, old_slots, k);
            }
            assert(old_slots.contains(old_slots[0]));
        }
        if self.slots.len() == 0 {
            proof {
                assert(self.slots@.to_set() =~= old_slots.to_set().remove(last)) by {
                    assert forall|t: usize| old_slots.to_set().remove(last).contains(t) implies false by {
                        let k = choose|k: int| 0 <= k < old_slots.len() && old_slots[k] == t;
                    }
                }
            }
            return Some(last);
        }
        let root: usize = self.slots[0];
        self.slots[0] = last;
        let ghost start = self.slots@;
        proof {
            let n = start.len() as int;
            assert(old_slots[n] == last);
            assert(slots_valid(keys, start)) by {
                assert forall|i: int, j: int| 0 <= i < j < start.len() implies (#[trigger] start[i])
                    != (#[trigger] start[j]) by {
                    if i == 0 {
                        assert(old_slots[j] != old_slots[n]);
                    } else {
                        assert(old_slots[i] != old_slots[j]);
                    }
                }
            }
            assert(heap_but_below::<O>(keys, start, 0)) by {
                assert forall|c: int| 0 < c < start.len() && (c - 1) / 2 != 0 implies table_le::<O>(
                    keys,
                    start[(c - 1) / 2] as int,
                    #[trigger] start[c] as int,
                ) by {
                    assert(table_le::<O>(keys, old_slots[(c - 1) / 2] as int, old_slots[c] as int));
                }
            }
            assert(start.to_set() =~= old_slots.to_set().remove(root)) by {
                assert forall|t: usize| start.to_set().contains(t) == old_slots.to_set().remove(
                    root,
                ).contains(t) by {
                    if start.contains(t) {
                        let k = choose|k: int| 0 <= k < start.len() && start[k] == t;
                        if k == 0 {
                            assert(old_slots[n] == t);
                            assert(old_slots[0] != old_slots[n]);
                        } else {
                            assert(old_slots[k] == t);
                            assert(old_slots[0] != old_slots[k]);
                        }
                    }
                    if old_slots.contains(t) && t != root {
                        let k = choose|k: int| 0 <= k < old_slots.len() && old_slots[k] == t;
                        if k == n {
                            assert(start[0] == t);
                        } else {
                            assert(start[k] == t);
                        }
                    }
                }
            }
        }
        let count: usize = self.slots.len();
        let mut hole: usize = 0;
        loop
            invariant
                hole < count,
                count == self.slots@.len(),
                self.keys() == keys,
                slots_valid(keys, self.slots@),
                self.tables() == start.to_set(),
                heap_but_below::<O>(keys, self.slots@, hole as int),
                forall|c: int|
                    0 < c < self.slots@.len() && (c - 1) / 2 == hole && hole > 0 ==> table_le::<O>(
                        keys,
                        self.slots@[(hole - 1) / 2] as int,
                        #[trigger] self.slots@[c] as int,
                    ),
            ensures
                self.keys() == keys,
                slots_valid(keys, self.slots@),
                self.tables() == start.to_set(),
                is_heap::<O>(keys, self.slots@),
            decreases count - hole,
        {
            // The first slot below the hole, and the one beside it.
            if hole >= (count - 1) / 2 + 1 || 2 * hole + 1 >= count {
                proof {
                    let slots = self.slots@;
                    assert forall|c: int| 0 < c < slots.len() && c != 0 implies table_le::<O>(
                        keys,
                        slots[(c - 1) / 2] as int,
                        #[trigger] slots[c] as int,
                    ) by {
                        assert((c - 1) / 2 != hole);
                    }
                }
                break ;
            }
            let left: usize = 2 * hole + 1;
            let right: usize = left + 1;
            let least: usize = if right < count && self.slot_before(right, left) {
                right
            } else {
                left
            };
            let other: usize = if least == left {
                right
            } else {
                left
            };
            let ghost before = self.slots@;
            proof {
                if other < count {
                    lemma_table_le_total::<O>(
                        keys,
                        before[left as int] as int,
                        before[right as int] as int,
                    );
                    assert(table_le::<O>(keys, before[least as int] as int, before[other as int] as int));
                }
            }
            if !self.slot_before(least, hole) {
                proof {
                    let th = before[hole as int] as int;
                    let tl = before[least as int] as int;
                    lemma_table_le_total::<O>(keys, th, tl);
                    assert forall|c: int| 0 < c < before.len() && c != 0 implies table_le::<O>(
                        keys,
                        before[(c - 1) / 2] as int,
                        #[trigger] before[c] as int,
                    ) by {
                        if (c - 1) / 2 == hole {
                            assert(c == left || c == right);
                            if c == other {
                                lemma_table_le_transitive::<O>(keys, th, tl, before[other as int] as int);
                            }
                        }
                    }
                }
                break ;
            }
            self.swap(hole, least);
            proof {
                let after = self.slots@;
                let th = before[hole as int] as int;
                let tl = before[least as int] as int;
                assert forall|c: int| 0 < c < after.len() && (c - 1) / 2 != least implies table_le::<O>(
                    keys,
                    after[(c - 1) / 2] as int,
                    #[trigger] after[c] as int,
                ) by {
                    let p = (c - 1) / 2;
                    if p == hole {
                        assert(c == left || c == right);
                        if c == other {
                            assert(table_le::<O>(keys, tl, before[other as int] as int));
                        }
                    } else if c == hole {
                        assert(table_le::<O>(keys, before[(hole - 1) / 2] as int, before[least as int] as int));
                    } else {
                        assert(table_le::<O>(keys, before[p] as int, before[c] as int));
                    }
                }
                assert forall|c: int|
                    0 < c < after.len() && (c - 1) / 2 == least && least > 0 implies table_le::<O>(
                    keys,
                    after[(least - 1) / 2] as int,
                    #[trigger] after[c] as int,
                ) by {
                    assert(table_le::<O>(keys, before[least as int] as int, before[c] as int));
                }
            }
            hole = least;
        }
        Some(root)
    }
}

} // verus!
