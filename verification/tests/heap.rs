use sstables::canonical::Canonical;
use sstables::heap::MinHeap;
use sstables::merge::{clone_index_entry, initialize_heap};
use sstables::natural::Natural;
use sstables::sstable_reader::SSTableIndex;

fn index(keys: &[&str]) -> SSTableIndex<String> {
  SSTableIndex { indices: keys.iter().enumerate().map(|(i, k)| (k.to_string(), 4 * i as u64)).collect() }
}

fn setup_test_indexes() -> Vec<SSTableIndex<String>> {
  vec![index(&["a", "b"]), index(&["c", "d"]), index(&["e", "f"])]
}

#[test]
fn test_initialize_heap_keys() {
  let indexes = setup_test_indexes();

  let heap = initialize_heap::<String, Natural>(&indexes);

  // The heap should be ordered by the first key of each table.
  let result = heap
    .into_vec()
    .into_iter()
    .map(|table| indexes[table].indices[0].0.clone())
    .collect::<Vec<String>>();
  assert_eq!(result, vec!["a", "c", "e"]);
}

#[test]
fn test_heap_tuple_ord() {
  let indexes = setup_test_indexes();

  let mut heap = initialize_heap::<String, Natural>(&indexes);

  // The heap should give the tables out in the order of their first keys.
  let key1 = indexes[heap.pop().unwrap()].indices[0].0.clone();
  let key2 = indexes[heap.pop().unwrap()].indices[0].0.clone();
  let key3 = indexes[heap.pop().unwrap()].indices[0].0.clone();
  assert_eq!([key1, key2, key3], ["a", "c", "e"]);
  assert_eq!(heap.pop(), None);
}

#[test]
fn initialize_heap_leaves_out_tables_without_entries() {
  let indexes = vec![index(&[]), index(&["z"]), index(&[]), index(&["b", "a"])];
  let mut heap = initialize_heap::<String, Natural>(&indexes);
  assert_eq!(heap.len(), 2);
  assert_eq!(heap.pop(), Some(3));
  assert_eq!(heap.pop(), Some(1));
  assert_eq!(heap.pop(), None);
  assert_eq!(heap.len(), 0);
}

#[test]
fn the_heap_gives_out_the_smallest_key_first() {
  let keys: Vec<u8> = vec![9, 3, 7, 3, 1, 8, 2, 6, 5, 4, 0, 3];
  let mut heap = MinHeap::<Natural>::new(keys.len());
  for (table, key) in keys.iter().enumerate() {
    heap.push(table, vec![*key]);
    assert_eq!(heap.len(), table + 1);
  }
  let mut order = Vec::new();
  while let Some(table) = heap.pop() {
    order.push((keys[table], table));
  }
  // By key, and tables with one key by their number.
  assert_eq!(
    order,
    vec![(0, 10), (1, 4), (2, 6), (3, 1), (3, 3), (3, 11), (4, 9), (5, 8), (6, 7), (7, 2), (8, 5), (9, 0)]
  );
}

#[test]
fn a_table_can_be_queued_again_under_another_key() {
  let mut heap = MinHeap::<Canonical>::new(3);
  heap.push(0, vec![0x61, b'b']);
  heap.push(1, vec![0x62, b'0', b'0']);
  heap.push(2, vec![0x61, b'a']);
  assert_eq!(heap.pop(), Some(2));
  heap.push(2, vec![0x63, b'a', b'a', b'a']);
  assert_eq!(heap.pop(), Some(0));
  heap.push(0, vec![0x61, b'z']);
  assert_eq!(heap.pop(), Some(0));
  assert_eq!(heap.pop(), Some(1));
  assert_eq!(heap.pop(), Some(2));
  assert_eq!(heap.pop(), None);
}

#[test]
fn clone_index_entry_copies_the_entry() {
  let sstable_index = index(&["a", "b"]);
  assert_eq!(clone_index_entry(&sstable_index, 0), Some(("a".to_string(), 0)));
  assert_eq!(clone_index_entry(&sstable_index, 1), Some(("b".to_string(), 4)));
  assert_eq!(clone_index_entry(&sstable_index, 2), None);
}
