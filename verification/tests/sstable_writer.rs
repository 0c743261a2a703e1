use sstables::cbor::{cbor_binary_search_first, cbor_sort};
use sstables::error::ErrorKind;
use sstables::read::{create_index_path, SeekFrom};
use sstables::sstable_reader::{SSTableIndex, SSTableReader};
use sstables::sstable_writer::{SSTableWriter, SSTableWriterBuilder, DEFAULT_BUFFER_SIZE};

const TEST_FILE_NAME: &str = ".tmp/test.sst";
const TEST_INDEX_FILE_NAME: &str = ".tmp/test.index.sst";

/// The bytes of the data file and of the index file that a writer has collected.
fn close(writer: SSTableWriter) -> (Vec<u8>, Vec<u8>) {
  let mut files = writer.into_files();
  let (index_path, index) = files.pop().unwrap();
  let (data_path, data) = files.pop().unwrap();
  assert_eq!(data_path, TEST_FILE_NAME);
  assert_eq!(index_path, TEST_INDEX_FILE_NAME);
  (data, index)
}

#[test]
fn test_append_string_tuple() {
  let mut writer = SSTableWriterBuilder::new(TEST_FILE_NAME).build();

  writer.write(("hello", "world")).unwrap();
  let (data, _) = close(writer);

  let mut reader = SSTableReader::<(String, String)>::from_bytes(data);

  assert_eq!(reader.next(), Some(Ok(("hello".to_string(), "world".to_string()))));
}

#[test]
fn test_append_bytes_tuple() {
  let mut writer = SSTableWriterBuilder::new(TEST_FILE_NAME).build();

  writer.write((b"hello".as_slice(), b"world".as_slice())).unwrap();
  let (data, _) = close(writer);

  let mut reader = SSTableReader::<(Vec<u8>, Vec<u8>)>::from_bytes(data);
  assert_eq!(reader.next(), Some(Ok((b"hello".to_vec(), b"world".to_vec()))));
  assert_eq!(reader.next(), None);
}

#[test]
fn test_append_string_tuple_with_index() {
  let mut writer = SSTableWriterBuilder::new(TEST_FILE_NAME).build();
  writer.write(("hello", "world")).unwrap();
  let (data, index) = close(writer);

  let mut sstable = SSTableReader::<(String, String)>::from_bytes(data);
  let sstable_index = SSTableIndex::<String>::from_bytes(index).unwrap();

  let mut sstable_index_iter = sstable_index.indices.iter();
  assert_eq!(sstable.next(), Some(Ok(("hello".to_string(), "world".to_string()))));
  assert_eq!(sstable_index_iter.next(), Some(&("hello".to_string(), 0)));

  assert_eq!(sstable.next(), None);
  assert_eq!(sstable_index_iter.next(), None);
}

#[test]
fn test_append_bytes_tuple_with_index() {
  let mut writer = SSTableWriterBuilder::new(TEST_FILE_NAME).build();
  writer.write((b"hello".as_slice(), b"world".as_slice())).unwrap();
  writer.write((b"foo".as_slice(), b"bar".as_slice())).unwrap();
  let (data, index) = close(writer);

  let mut sstable = SSTableReader::<(Vec<u8>, Vec<u8>)>::from_bytes(data);
  let sstable_index = SSTableIndex::<Vec<u8>>::from_bytes(index).unwrap();

  let mut sstable_index_iter = sstable_index.indices.iter();
  assert_eq!(sstable.next(), Some(Ok((b"hello".to_vec(), b"world".to_vec()))));
  assert_eq!(sstable_index_iter.next(), Some(&(b"hello".to_vec(), 0)));

  assert_eq!(sstable.next(), Some(Ok((b"foo".to_vec(), b"bar".to_vec()))));
  assert_eq!(sstable_index_iter.next(), Some(&(b"foo".to_vec(), 12)));

  assert_eq!(sstable.next(), None);
  assert_eq!(sstable_index_iter.next(), None);
}

#[test]
fn test_index_bytes_binary_search() {
  let mut writer = SSTableWriterBuilder::new(TEST_FILE_NAME).build();
  writer.write((b"baz", b"qux")).unwrap();
  writer.write((b"corge", b"grault")).unwrap();
  writer.write((b"foo", b"bar")).unwrap();
  writer.write((b"garply", b"waldo")).unwrap();
  writer.write((b"hello", b"world")).unwrap();
  writer.write((b"quux", b"quuz")).unwrap();
  let (_, index) = close(writer);

  let mut sstable_index = SSTableIndex::<Vec<u8>>::from_bytes(index).unwrap();
  let a = sstable_index
    .indices
    .binary_search_by_key(&b"hello".as_slice(), |(k, _)| k);
  assert_eq!(a.unwrap(), 4);

  cbor_sort(&mut sstable_index.indices);
  let b = cbor_binary_search_first(&sstable_index.indices, &b"hello".as_slice());
  assert_eq!(b.unwrap(), 4);
}

#[test]
fn test_index_string_binary_search() {
  let mut writer = SSTableWriterBuilder::new(TEST_FILE_NAME).build();
  writer.write(("baz", "qux")).unwrap();
  writer.write(("corge", "grault")).unwrap();
  writer.write(("foo", "bar")).unwrap();
  writer.write(("garply", "waldo")).unwrap();
  writer.write(("hello", "world")).unwrap();
  writer.write(("quux", "quuz")).unwrap();
  let (_, index) = close(writer);

  let mut sstable_index = SSTableIndex::<String>::from_bytes(index).unwrap();
  let a = sstable_index.indices.binary_search_by_key(&"hello", |(k, _)| k);
  assert_eq!(a, Ok(4));

  cbor_sort(&mut sstable_index.indices);
  let b = cbor_binary_search_first(&sstable_index.indices, &"hello");
  assert_eq!(b, Ok(4));
}

#[test]
fn test_index_u64_binary_search() {
  let mut writer = SSTableWriterBuilder::new(TEST_FILE_NAME).build();
  writer.write((1, b"baz")).unwrap();
  writer.write((2, b"corge")).unwrap();
  writer.write((3, b"foo")).unwrap();
  writer.write((4, b"garply")).unwrap();
  writer.write((5, b"hello")).unwrap();
  writer.write((6, b"quux")).unwrap();
  let (_, index) = close(writer);

  let mut sstable_index = SSTableIndex::<u64>::from_bytes(index).unwrap();
  let a = sstable_index.indices.binary_search_by_key(&5, |(k, _)| *k);
  assert_eq!(a, Ok(4));

  cbor_sort(&mut sstable_index.indices);
  let b = cbor_binary_search_first(&sstable_index.indices, &5);
  assert_eq!(b, Ok(4));
}

#[test]
fn test_index_bytes_binary_search_with_duplicates() {
  let mut sstable_writer = SSTableWriterBuilder::new(TEST_FILE_NAME).build();
  sstable_writer.write((b"baz", b"qux")).unwrap();
  for _ in 0..5 {
    sstable_writer.write((b"foo", b"bar")).unwrap();
  }
  sstable_writer.write((b"garply", b"waldo")).unwrap();
  sstable_writer.write((b"hello", b"world")).unwrap();
  sstable_writer.write((b"quux", b"quuz")).unwrap();
  let (data, index) = close(sstable_writer);

  let mut sstable_index = SSTableIndex::<Vec<u8>>::from_bytes(index).unwrap();
  // A plain binary search gives one of the five entries with the key, whichever it meets.
  let a = sstable_index
    .indices
    .binary_search_by_key(&b"foo".as_slice(), |(k, _)| k);
  assert!(matches!(a, Ok(1..=5)));

  cbor_sort(&mut sstable_index.indices);
  let b = cbor_binary_search_first(&sstable_index.indices, &b"foo".as_slice());
  assert_eq!(b, Ok(1));

  let mut sstable = SSTableReader::<(Vec<u8>, Vec<u8>)>::from_bytes(data);

  sstable
    .seek(SeekFrom::Start(sstable_index.indices[b.unwrap()].1))
    .unwrap();
  for _ in 0..5 {
    assert_eq!(sstable.next(), Some(Ok((b"foo".to_vec(), b"bar".to_vec()))));
  }
}

#[test]
fn builder_derives_the_index_path() {
  let writer = SSTableWriterBuilder::new("dir/foo.sst").build();
  assert_eq!(writer.data_writer_path(), "dir/foo.sst");
  assert_eq!(writer.index_writer_path(), "dir/foo.index.sst");
  assert_eq!(writer.buffer_size(), DEFAULT_BUFFER_SIZE);
  assert_eq!(DEFAULT_BUFFER_SIZE, 8 * 1024);
  assert_eq!(writer.data_start(), 0);

  let writer = SSTableWriterBuilder::new("foo")
    .index_writer_path("elsewhere.idx")
    .buffer_size(1024)
    .data_start(77)
    .build();
  assert_eq!(writer.data_writer_path(), "foo");
  assert_eq!(writer.index_writer_path(), "elsewhere.idx");
  assert_eq!(writer.buffer_size(), 1024);
  assert_eq!(writer.data_start(), 77);
  assert!(writer.data().is_empty());
  assert!(writer.index().is_empty());
}

#[test]
fn create_index_path_puts_index_before_the_extension() {
  assert_eq!(create_index_path("foo.sst"), "foo.index.sst");
  assert_eq!(create_index_path("foo"), "foo.index");
  assert_eq!(create_index_path(".tmp/merge_test_1"), ".tmp/merge_test_1.index");
  assert_eq!(create_index_path("a.b/c"), "a.b/c.index");
  assert_eq!(create_index_path("a.b/c.d.e"), "a.b/c.d.index.e");
  assert_eq!(create_index_path("dir/.hidden"), "dir/.hidden.index");
  assert_eq!(create_index_path(".hidden"), ".hidden.index");
  assert_eq!(create_index_path("foo."), "foo.index.");
  assert_eq!(create_index_path("gr\u{fc}n.sst"), "gr\u{fc}n.index.sst");
}

#[test]
fn offsets_count_from_where_the_data_starts() {
  let mut writer = SSTableWriterBuilder::new("t.sst").data_start(1000).build();
  writer.write(("a", "1")).unwrap();
  writer.write(("b", "2")).unwrap();
  let index = SSTableIndex::<String>::from_bytes(writer.index().clone()).unwrap();
  assert_eq!(index.indices, vec![("a".to_string(), 1000), ("b".to_string(), 1004)]);
}

#[test]
fn flush_hands_out_what_was_collected() {
  let mut writer = SSTableWriterBuilder::new("t.sst").build();
  writer.write(("a", "1")).unwrap();
  let (data, index) = writer.flush().unwrap();
  assert_eq!(data, vec![0x61, 0x61, 0x61, 0x31]);
  assert_eq!(index, vec![0x61, 0x61, 0x00]);
  assert_eq!(writer.data_start(), 4);
  assert!(writer.data().is_empty());
  assert!(writer.index().is_empty());

  writer.write(("b", "2")).unwrap();
  let (data, index) = writer.flush().unwrap();
  assert_eq!(data, vec![0x61, 0x62, 0x61, 0x32]);
  assert_eq!(index, vec![0x61, 0x62, 0x04]);
  assert_eq!(writer.data_start(), 8);
}

#[test]
fn write_refuses_what_no_offset_can_hold() {
  let mut writer = SSTableWriterBuilder::new("t.sst").data_start(u64::MAX - 3).build();
  assert_eq!(writer.write(("a", "1")).unwrap_err().kind(), ErrorKind::InvalidInput);
  assert!(writer.data().is_empty());
  assert!(writer.index().is_empty());
  assert_eq!(writer.flush().unwrap(), (Vec::new(), Vec::new()));

  let mut writer = SSTableWriterBuilder::new("t.sst").data_start(u64::MAX - 4).build();
  writer.write(("a", "1")).unwrap();
  assert_eq!(writer.data().len(), 4);
  assert_eq!(writer.write(("", "")).unwrap_err().kind(), ErrorKind::InvalidInput);
  assert_eq!(writer.data().len(), 4);
}
