use sstables::text::{push_decimal, push_hex, push_hex_list, ToText};
use sstables::traits::{KeyValue, Terminal, TypeWrite, TypeWriter};

#[test]
fn numbers_are_shown_in_decimal() {
  assert_eq!(0u64.to_text(), "0");
  assert_eq!(9u64.to_text(), "9");
  assert_eq!(10u64.to_text(), "10");
  assert_eq!(4294967296u64.to_text(), "4294967296");
  assert_eq!(u64::MAX.to_text(), "18446744073709551615");
  let mut out = String::from("n=");
  push_decimal(&mut out, 305);
  assert_eq!(out, "n=305");
}

#[test]
fn bytes_are_shown_as_a_hex_list() {
  assert_eq!(Vec::<u8>::new().to_text(), "[]");
  assert_eq!(vec![0u8].to_text(), "[0]");
  assert_eq!(vec![1u8, 255, 10, 16].to_text(), "[1, ff, a, 10]");
  assert_eq!(vec![1u8, 255, 10, 16].to_text(), format!("{:x?}", vec![1u8, 255, 10, 16]));
  assert_eq!(b"hello".to_text(), format!("{:x?}", b"hello"));
  assert_eq!(b"hello".as_slice().to_text(), "[68, 65, 6c, 6c, 6f]");
  let mut out = String::new();
  push_hex(&mut out, 0xab);
  push_hex(&mut out, 0x0c);
  push_hex_list(&mut out, &[7, 8]);
  assert_eq!(out, "abc[7, 8]");
}

#[test]
fn text_is_shown_as_it_is() {
  assert_eq!("tab\there".to_text(), "tab\there");
  assert_eq!("gr\u{fc}n".to_string().to_text(), "gr\u{fc}n");
}

#[test]
fn key_value_is_shown_as_a_pair() {
  assert_eq!(KeyValue("a", 1u64).to_text(), "(a, 1)");
  assert_eq!(KeyValue(vec![1u8, 2], "x".to_string()).to_text(), "([1, 2], x)");
}

#[test]
fn terminal_collects_lines() {
  let mut terminal = Terminal::new();
  terminal.write("one".to_string()).unwrap();
  terminal.write(KeyValue("k", "v")).unwrap();
  terminal.write_line("three".to_string());
  assert_eq!(terminal.lines, vec!["one", "(k, v)", "three"]);
}

#[test]
fn type_writer_goes_to_a_table_or_to_the_terminal() {
  let mut to_terminal = TypeWriter::new(None);
  to_terminal.write(("a", "1")).unwrap();
  match to_terminal {
    TypeWriter::Terminal(terminal) => assert_eq!(terminal.lines, vec!["(a, 1)"]),
    TypeWriter::SSTable(_) => panic!("a terminal was asked for"),
  }

  let mut to_table = TypeWriter::new(Some("out.sst"));
  to_table.write(("a", "1")).unwrap();
  match to_table {
    TypeWriter::SSTable(writer) => {
      assert_eq!(writer.data_writer_path(), "out.sst");
      assert_eq!(writer.index_writer_path(), "out.index.sst");
      assert_eq!(writer.data(), &vec![0x61, 0x61, 0x61, 0x31]);
      assert_eq!(writer.index(), &vec![0x61, 0x61, 0x00]);
    }
    TypeWriter::Terminal(_) => panic!("a table was asked for"),
  }
}

#[test]
fn key_values_are_compared_by_key() {
  assert!(KeyValue("a".to_string(), 1u64) == KeyValue("a".to_string(), 2u64));
  assert!(KeyValue("a".to_string(), 1u64) != KeyValue("b".to_string(), 1u64));
  assert!(KeyValue("a".to_string(), 9u64) < KeyValue("b".to_string(), 1u64));
  assert!(KeyValue("00".to_string(), 0u64) < KeyValue("5".to_string(), 0u64));
  assert!(KeyValue(256u64, "x") > KeyValue(255u64, "y"));
  assert!(KeyValue(vec![1u8], ()) <= KeyValue(vec![1u8], ()));
  assert_eq!(
    KeyValue(7u64, "x").partial_cmp(&KeyValue(7u64, "y")),
    Some(std::cmp::Ordering::Equal)
  );
}
