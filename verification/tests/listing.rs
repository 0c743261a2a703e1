use sstables::error::ErrorKind;
use sstables::get::TableInput;
use sstables::listing::{list_index, list_records, write_index_entries, write_records, Style};
use sstables::read::SeekFrom;
use sstables::sstable_reader::{SSTableIndex, SSTableReader};
use sstables::sstable_writer::SSTableWriterBuilder;
use sstables::traits::Terminal;

fn table(path: &str, records: &[(&str, &str)]) -> TableInput {
  let mut writer = SSTableWriterBuilder::new(path).build();
  for record in records {
    writer.write(*record).unwrap();
  }
  let (data, index) = writer.flush().unwrap();
  TableInput { path: path.to_string(), data: Some(data), index: Some(index) }
}

fn missing(path: &str) -> TableInput {
  TableInput { path: path.to_string(), data: None, index: None }
}

fn listed(style: Style) -> Vec<String> {
  let inputs = vec![table("one", &[("hello", "world"), ("a", "")]), missing("gone"), table("two", &[("k", "v")])];
  let mut writer = Terminal::new();
  list_records::<String, String>(inputs, style, &mut writer).unwrap();
  writer.lines
}

#[test]
fn records_are_listed_in_each_style() {
  let gone = "File does not exist: gone";
  assert_eq!(listed(Style::Dump), vec!["(0) hello: world", "(12) a: ", gone, "(0) k: v"]);
  assert_eq!(listed(Style::Pairs), vec!["hello: world", "a: ", gone, "k: v"]);
  assert_eq!(listed(Style::Keys), vec!["hello", "a", gone, "k"]);
  assert_eq!(listed(Style::Values), vec!["world", "", gone, "v"]);
  assert_eq!(listed(Style::Json), vec!["{\"hello\": \"world\"},", "{\"a\": \"\"},", gone, "{\"k\": \"v\"},"]);
  assert_eq!(listed(Style::Csv), vec!["hello,world", "a,", gone, "k,v"]);
}

#[test]
fn a_listing_of_nothing_is_empty() {
  let mut writer = Terminal::new();
  list_records::<String, String>(Vec::new(), Style::Pairs, &mut writer).unwrap();
  list_records::<String, String>(vec![table("empty", &[])], Style::Pairs, &mut writer).unwrap();
  list_index::<String>(vec![table("empty", &[])], &mut writer).unwrap();
  assert!(writer.lines.is_empty());
}

#[test]
fn a_listing_ends_with_the_record_that_does_not_decode() {
  let mut broken = table("broken", &[("a", "1"), ("b", "2")]);
  broken.data.as_mut().unwrap().truncate(6);
  let inputs = vec![table("one", &[("x", "y")]), broken, table("late", &[("p", "q")])];
  let mut writer = Terminal::new();
  let result = list_records::<String, String>(inputs, Style::Pairs, &mut writer);
  assert_eq!(result.unwrap_err().kind(), ErrorKind::UnexpectedEof);
  assert_eq!(writer.lines, vec!["x: y", "a: 1"]);

  let inputs = vec![table("texts", &[("a", "1")])];
  let mut writer = Terminal::new();
  let result = list_records::<u64, String>(inputs, Style::Pairs, &mut writer);
  assert_eq!(result.unwrap_err().kind(), ErrorKind::InvalidData);
  assert!(writer.lines.is_empty());
}

#[test]
fn records_are_listed_from_where_the_reader_stands() {
  let data = table("t", &[("a", "1"), ("b", "2"), ("c", "3")]).data.unwrap();
  let mut reader = SSTableReader::<(String, String)>::from_bytes(data);
  reader.seek(SeekFrom::Start(4)).unwrap();
  let mut writer = Terminal::new();
  write_records(&mut reader, Style::Dump, &mut writer).unwrap();
  assert_eq!(writer.lines, vec!["(4) b: 2", "(8) c: 3"]);
  assert_eq!(reader.stream_position(), 12);
}

#[test]
fn index_entries_are_listed_with_their_offsets() {
  let inputs = vec![table("one", &[("hello", "world"), ("a", ""), ("a", "z")]), missing("gone")];
  let mut writer = Terminal::new();
  list_index::<String>(inputs, &mut writer).unwrap();
  assert_eq!(writer.lines, vec!["hello: 0", "a: 12", "a: 15", "File does not exist: gone"]);

  let index = SSTableIndex { indices: vec![(vec![1u8, 0xab], 7u64), (vec![], u64::MAX)] };
  let mut writer = Terminal::new();
  write_index_entries(&index, &mut writer);
  assert_eq!(writer.lines, vec!["[1, ab]: 7", "[]: 18446744073709551615"]);
}

#[test]
fn an_index_listing_needs_the_index() {
  let mut without = table("t", &[("a", "1")]);
  without.index = None;
  let mut writer = Terminal::new();
  let result = list_index::<String>(vec![table("one", &[("x", "y")]), without], &mut writer);
  assert_eq!(result.unwrap_err().kind(), ErrorKind::NotFound);
  assert_eq!(writer.lines, vec!["x: 0"]);

  let mut broken = table("t", &[("a", "1")]);
  broken.index = Some(vec![0x61, 0x61, 0x1c]);
  let mut writer = Terminal::new();
  let result = list_index::<String>(vec![broken], &mut writer);
  assert_eq!(result.unwrap_err().kind(), ErrorKind::InvalidData);
  assert!(writer.lines.is_empty());
}
