use sstables::error::ErrorKind;
use sstables::get::{
  get, get_index_entry_by_key, get_kv_by_linear_search, write_next_n_with_key, TableInput,
};
use sstables::sstable_reader::{SSTableIndex, SSTableReader};
use sstables::sstable_writer::SSTableWriterBuilder;
use sstables::traits::Terminal;

/// The data and the index of a table that holds `records`.
fn table(records: &[(&str, &str)]) -> (Vec<u8>, Vec<u8>) {
  let mut writer = SSTableWriterBuilder::new("t.sst").build();
  for record in records {
    writer.write(*record).unwrap();
  }
  writer.flush().unwrap()
}

fn create_iterator() -> SSTableReader<(String, String)> {
  let (data, _) = table(&[("a", "1"), ("a", "2"), ("b", "3"), ("b", "4"), ("c", "5"), ("c", "6")]);
  SSTableReader::from_bytes(data)
}

#[test]
fn get_index_entry_by_key_works() {
  let sstable_index = SSTableIndex {
    indices: vec![("a".to_string(), 0), ("b".to_string(), 1)],
  };

  assert_eq!(
    get_index_entry_by_key(&sstable_index, &"a".to_string()),
    Some(("a".to_string(), 0u64)),
  );
  assert_eq!(
    get_index_entry_by_key(&sstable_index, &"b".to_string()),
    Some(("b".to_string(), 1u64)),
  );
  assert_eq!(get_index_entry_by_key(&sstable_index, &"d".to_string()), None);
}

#[test]
fn get_index_entry_by_key_gives_the_first_of_many() {
  let sstable_index = SSTableIndex {
    indices: vec![
      ("a".to_string(), 0),
      ("b".to_string(), 4),
      ("b".to_string(), 8),
      ("b".to_string(), 12),
      ("b".to_string(), 16),
      ("b".to_string(), 20),
      ("c".to_string(), 24),
    ],
  };
  assert_eq!(get_index_entry_by_key(&sstable_index, &"b".to_string()), Some(("b".to_string(), 4u64)));
  let numbers = SSTableIndex { indices: vec![(2u64, 0u64), (256, 7), (256, 9), (70000, 11)] };
  assert_eq!(get_index_entry_by_key(&numbers, &256), Some((256, 7)));
  assert_eq!(get_index_entry_by_key(&numbers, &3), None);
}

#[test]
fn get_kv_by_linear_search_works() {
  // Start
  let mut iterator = create_iterator();
  let mut writer = Terminal::new();
  get_kv_by_linear_search(&mut iterator, &"a".to_string(), None, &mut writer).unwrap();
  assert_eq!(writer.lines, vec!["1".to_string(), "2".to_string()]);

  // End
  let mut iterator = create_iterator();
  let mut writer = Terminal::new();
  get_kv_by_linear_search(&mut iterator, &"c".to_string(), Some(2), &mut writer).unwrap();
  assert_eq!(writer.lines, vec!["5".to_string(), "6".to_string()]);
}

#[test]
fn get_kv_by_linear_search_with_limit() {
  let mut iterator = create_iterator();
  let mut writer = Terminal::new();
  get_kv_by_linear_search(&mut iterator, &"b".to_string(), Some(1), &mut writer).unwrap();
  assert_eq!(writer.lines, vec!["3".to_string()]);
}

#[test]
fn write_next_n_with_key_works() {
  let mut iterator = create_iterator();
  let mut writer = Terminal::new();
  write_next_n_with_key(&mut iterator, "a".to_string(), Some(2), &mut writer).unwrap();
  assert_eq!(writer.lines, vec!["a: 1".to_string(), "a: 2".to_string()]);
}

#[test]
fn write_next_n_with_key_with_limit() {
  let mut iterator = create_iterator();
  let mut writer = Terminal::new();
  write_next_n_with_key(&mut iterator, "a".to_string(), Some(1), &mut writer).unwrap();
  assert_eq!(writer.lines, vec!["a: 1".to_string()]);
}

#[test]
fn write_next_n_with_key_stops_at_another_key() {
  let mut iterator = create_iterator();
  let mut writer = Terminal::new();
  write_next_n_with_key(&mut iterator, "a".to_string(), None, &mut writer).unwrap();
  assert_eq!(writer.lines, vec!["a: 1", "a: 2"]);
  // The record that ended the run was read: the next one is the second of "b".
  assert_eq!(iterator.next(), Some(Ok(("b".to_string(), "4".to_string()))));

  let mut iterator = create_iterator();
  let mut writer = Terminal::new();
  write_next_n_with_key(&mut iterator, "b".to_string(), None, &mut writer).unwrap();
  assert!(writer.lines.is_empty());
}

#[test]
fn a_record_that_breaks_off_ends_the_scan_in_its_error() {
  let (mut data, _) = table(&[("a", "1"), ("a", "2")]);
  data.pop();
  let mut iterator = SSTableReader::<(String, String)>::from_bytes(data.clone());
  let mut writer = Terminal::new();
  let result = get_kv_by_linear_search(&mut iterator, &"a".to_string(), None, &mut writer);
  assert_eq!(result.unwrap_err().kind(), ErrorKind::UnexpectedEof);
  assert_eq!(writer.lines, vec!["1"]);
  assert_eq!(iterator.stream_position(), 4);

  let mut iterator = SSTableReader::<(String, String)>::from_bytes(data);
  let mut writer = Terminal::new();
  let result = write_next_n_with_key(&mut iterator, "a".to_string(), None, &mut writer);
  assert_eq!(result.unwrap_err().kind(), ErrorKind::UnexpectedEof);
  assert_eq!(writer.lines, vec!["a: 1"]);
}

fn input(path: &str, records: Option<&[(&str, &str)]>, with_index: bool) -> TableInput {
  match records {
    None => TableInput { path: path.to_string(), data: None, index: None },
    Some(records) => {
      let (data, index) = table(records);
      TableInput { path: path.to_string(), data: Some(data), index: if with_index { Some(index) } else { None } }
    }
  }
}

#[test]
fn get_with_a_cap_of_one_gives_one_of_five() {
  let records = [("a", "0"), ("k", "1"), ("k", "2"), ("k", "3"), ("k", "4"), ("k", "5"), ("z", "9")];

  let mut writer = Terminal::new();
  get::<String, String>(vec![input("t.sst", Some(&records), true)], "k".to_string(), Some(1), &mut writer).unwrap();
  assert_eq!(writer.lines, vec!["k: 1"]);

  let mut writer = Terminal::new();
  get::<String, String>(vec![input("t.sst", Some(&records), true)], "k".to_string(), None, &mut writer).unwrap();
  assert_eq!(writer.lines, vec!["k: 1", "k: 2", "k: 3", "k: 4", "k: 5"]);

  let mut writer = Terminal::new();
  get::<String, String>(vec![input("t.sst", Some(&records), false)], "k".to_string(), Some(1), &mut writer).unwrap();
  assert_eq!(writer.lines, vec!["1"]);

  let mut writer = Terminal::new();
  get::<String, String>(vec![input("t.sst", Some(&records), false)], "k".to_string(), None, &mut writer).unwrap();
  assert_eq!(writer.lines, vec!["1", "2", "3", "4", "5"]);
}

#[test]
fn get_gives_all_values_of_a_key() {
  let records = [("a", "1"), ("a", "2"), ("b", "3")];
  let mut writer = Terminal::new();
  get::<String, String>(vec![input("t.sst", Some(&records), false)], "a".to_string(), None, &mut writer).unwrap();
  assert_eq!(writer.lines, vec!["1", "2"]);
}

#[test]
fn get_goes_on_after_a_table_without_the_key() {
  let inputs = vec![
    input("one.sst", Some(&[("a", "1"), ("c", "3")]), true),
    input("gone.sst", None, false),
    input("two.sst", Some(&[("b", "2"), ("b", "22")]), true),
    input("three.sst", Some(&[("b", "x"), ("a", "y"), ("b", "z")]), false),
  ];
  let mut writer = Terminal::new();
  get::<String, String>(inputs, "b".to_string(), None, &mut writer).unwrap();
  assert_eq!(writer.lines, vec!["File does not exist: gone.sst", "b: 2", "b: 22", "x", "z"]);
}

#[test]
fn get_falls_back_to_the_data_where_the_index_does_not_load() {
  let (data, _) = table(&[("a", "1"), ("b", "2")]);
  let inputs = vec![TableInput { path: "t.sst".to_string(), data: Some(data), index: Some(vec![0x61]) }];
  let mut writer = Terminal::new();
  get::<String, String>(inputs, "b".to_string(), None, &mut writer).unwrap();
  assert_eq!(writer.lines, vec!["2"]);
}

#[test]
fn get_ends_in_the_error_of_the_data() {
  let (good, _) = table(&[("a", "1")]);
  let inputs = vec![
    TableInput { path: "good.sst".to_string(), data: Some(good.clone()), index: None },
    TableInput { path: "bad.sst".to_string(), data: Some(vec![0x61, 0x61, 0x41, 0x00]), index: None },
    TableInput { path: "late.sst".to_string(), data: Some(good), index: None },
  ];
  let mut writer = Terminal::new();
  let result = get::<String, String>(inputs, "a".to_string(), None, &mut writer);
  assert_eq!(result.unwrap_err().kind(), ErrorKind::InvalidData);
  assert_eq!(writer.lines, vec!["1"]);
}

#[test]
fn a_cap_of_zero_gives_nothing() {
  let records = [("k", "1"), ("k", "2")];
  let mut writer = Terminal::new();
  get::<String, String>(vec![input("t.sst", Some(&records), true)], "k".to_string(), Some(0), &mut writer).unwrap();
  get::<String, String>(vec![input("t.sst", Some(&records), false)], "k".to_string(), Some(0), &mut writer).unwrap();
  assert!(writer.lines.is_empty());

  let mut iterator = create_iterator();
  write_next_n_with_key(&mut iterator, "a".to_string(), Some(0), &mut writer).unwrap();
  get_kv_by_linear_search(&mut iterator, &"a".to_string(), Some(0), &mut writer).unwrap();
  assert!(writer.lines.is_empty());
  assert_eq!(iterator.stream_position(), 0);
}
