use sstables::cbor::{
  read_cbor_bytes, read_cbor_head_u64, read_cbor_text, read_cbor_u64, write_cbor_bytes, write_cbor_text,
  write_cbor_unsigned_integer, CborItem, CborRead, CborWrite,
};
use sstables::cbor_types::{be_to_u64, push_be_bytes, ExtendedSize, MajorType};
use sstables::error::{Error, ErrorKind};
use sstables::read::{Cursor, SeekFrom};
use sstables::sstable_reader::{read_pair, SSTableIndex, SSTableReader};
use sstables::sstable_writer::SSTableWriterBuilder;

fn encoded<T: CborWrite>(value: T) -> Vec<u8> {
  let mut v = Vec::new();
  value.cbor_write(&mut v);
  v
}

const BOUNDARIES: [u64; 12] =
  [0, 1, 23, 24, 255, 256, 65535, 65536, 4294967295, 4294967296, u64::MAX - 1, u64::MAX];

#[test]
fn integers_come_back_as_they_were_written() {
  for value in BOUNDARIES {
    let mut cursor = Cursor::new(encoded(value));
    assert_eq!(read_cbor_u64(&mut cursor), Ok(value));
    assert_eq!(cursor.position(), cursor.get_ref().len() as u64);
    assert_eq!(u64::read_from(&mut Cursor::new(encoded(value))), Ok(value));
  }
}

#[test]
fn integers_get_the_shortest_head() {
  let expected: [(u64, u8, usize); 10] = [
    (0, 0x00, 0),
    (23, 0x17, 0),
    (24, 0x18, 1),
    (255, 0x18, 1),
    (256, 0x19, 2),
    (65535, 0x19, 2),
    (65536, 0x1a, 4),
    (4294967295, 0x1a, 4),
    (4294967296, 0x1b, 8),
    (u64::MAX, 0x1b, 8),
  ];
  for (value, head, payload) in expected {
    let bytes = encoded(value);
    assert_eq!(bytes[0], head);
    assert_eq!(bytes.len(), 1 + payload);
    assert_eq!(be_to_u64(&bytes[1..]), if payload == 0 { 0 } else { value });
  }
}

#[test]
fn strings_come_back_as_they_were_written() {
  for len in [0usize, 1, 23, 24, 255, 256, 65535, 65536] {
    let bytes: Vec<u8> = (0..len).map(|i| (i % 251) as u8).collect();
    let mut cursor = Cursor::new(encoded(bytes.clone()));
    assert_eq!(read_cbor_bytes(&mut cursor), Ok(bytes.clone()));
    assert_eq!(cursor.position(), cursor.get_ref().len() as u64);

    let text: String = (0..len).map(|i| if i % 7 == 0 { '\u{e9}' } else { 'x' }).collect();
    let mut cursor = Cursor::new(encoded(text.as_str()));
    assert_eq!(read_cbor_text(&mut cursor), Ok(text.clone()));
    assert_eq!(cursor.position(), cursor.get_ref().len() as u64);
    assert_eq!(encoded(text.clone()), encoded(text.as_str()));
    assert_eq!(encoded(bytes.clone()), encoded(bytes.as_slice()));
  }
  assert_eq!(encoded(b"abc"), encoded(b"abc".to_vec()));
  assert_eq!(encoded("\u{20ac}"), vec![0x63, 0xe2, 0x82, 0xac]);
}

#[test]
fn cursors_read_by_kind() {
  let mut bytes = encoded(7u64);
  bytes.extend(encoded("seven"));
  bytes.extend(encoded(vec![7u8]));
  let mut cursor = Cursor::new(bytes);
  let number: u64 = cursor.cbor_read().unwrap();
  let text: String = cursor.cbor_read().unwrap();
  let raw: Vec<u8> = cursor.cbor_read().unwrap();
  assert_eq!((number, text.as_str(), raw), (7, "seven", vec![7u8]));
  let nothing: Result<u64, Error> = cursor.cbor_read();
  assert_eq!(nothing.unwrap_err().kind(), ErrorKind::UnexpectedEof);
}

#[test]
fn a_value_of_another_kind_is_refused() {
  let mut cursor = Cursor::new(encoded("text"));
  assert_eq!(read_cbor_u64(&mut cursor).unwrap_err().kind(), ErrorKind::InvalidData);
  assert_eq!(read_cbor_bytes(&mut cursor).unwrap_err().kind(), ErrorKind::InvalidData);
  assert_eq!(cursor.position(), 0);
  assert_eq!(read_cbor_text(&mut cursor).unwrap(), "text");

  let mut cursor = Cursor::new(encoded(5u64));
  assert_eq!(read_cbor_text(&mut cursor).unwrap_err().kind(), ErrorKind::InvalidData);
  assert_eq!(read_cbor_bytes(&mut cursor).unwrap_err().kind(), ErrorKind::InvalidData);
  // A negative integer, an array, a map, a tag and a simple value.
  for head in [0x20u8, 0x80, 0xa0, 0xc0, 0xe0] {
    let mut cursor = Cursor::new(vec![head]);
    assert_eq!(read_cbor_u64(&mut cursor).unwrap_err().kind(), ErrorKind::InvalidData);
    assert_eq!(read_cbor_bytes(&mut cursor).unwrap_err().kind(), ErrorKind::InvalidData);
    assert_eq!(read_cbor_text(&mut cursor).unwrap_err().kind(), ErrorKind::InvalidData);
    assert_eq!(cursor.position(), 0);
  }
}

#[test]
fn a_malformed_head_is_refused() {
  for info in 28u8..=31 {
    let mut cursor = Cursor::new(vec![1, 2, 3, 4, 5, 6, 7, 8]);
    assert_eq!(read_cbor_head_u64(&mut cursor, info).unwrap_err().kind(), ErrorKind::InvalidData);
    assert_eq!(cursor.position(), 0);
    let mut cursor = Cursor::new(vec![0x40 | info, 0, 0]);
    assert_eq!(read_cbor_bytes(&mut cursor).unwrap_err().kind(), ErrorKind::InvalidData);
    assert_eq!(cursor.position(), 0);
  }
}

#[test]
fn a_longer_head_than_needed_is_read() {
  let mut cursor = Cursor::new(vec![0x19, 0x00, 0x05]);
  assert_eq!(read_cbor_u64(&mut cursor), Ok(5));
  let mut cursor = Cursor::new(vec![0x7b, 0, 0, 0, 0, 0, 0, 0, 2, b'h', b'i']);
  assert_eq!(read_cbor_text(&mut cursor).unwrap(), "hi");
}

#[test]
fn text_that_is_not_utf8_is_refused() {
  let mut cursor = Cursor::new(vec![0x62, 0xc3, 0x28, 0x00]);
  assert_eq!(read_cbor_text(&mut cursor).unwrap_err().kind(), ErrorKind::InvalidData);
  assert_eq!(cursor.position(), 0);
  let mut cursor = Cursor::new(vec![0x42, 0xc3, 0x28, 0x00]);
  assert_eq!(read_cbor_bytes(&mut cursor).unwrap(), vec![0xc3, 0x28]);
  assert_eq!(cursor.position(), 3);
}

#[test]
fn a_value_that_breaks_off_is_refused() {
  for bytes in [vec![], vec![0x18], vec![0x19, 1], vec![0x1a, 1, 2, 3], vec![0x1b, 1, 2, 3, 4, 5, 6, 7]] {
    let mut cursor = Cursor::new(bytes);
    assert_eq!(read_cbor_u64(&mut cursor).unwrap_err().kind(), ErrorKind::UnexpectedEof);
    assert_eq!(cursor.position(), 0);
  }
  for bytes in [vec![0x45, 1, 2, 3, 4], vec![0x58], vec![0x58, 2, 1], vec![0x5b, 0xff, 0xff, 0xff, 0xff, 0xff, 0xff, 0xff, 0xff, 1]] {
    let mut cursor = Cursor::new(bytes);
    assert_eq!(read_cbor_bytes(&mut cursor).unwrap_err().kind(), ErrorKind::UnexpectedEof);
    assert_eq!(cursor.position(), 0);
  }
  let mut cursor = Cursor::new(vec![0x61, b'a', 0x61]);
  assert_eq!(read_pair::<String, String>(&mut cursor).unwrap_err().kind(), ErrorKind::UnexpectedEof);
  assert_eq!(cursor.position(), 0);
}

#[test]
fn big_endian_bytes_spell_the_value() {
  let mut v = vec![9];
  push_be_bytes(&mut v, 0x0102030405060708, 8);
  push_be_bytes(&mut v, 0x0102030405060708, 2);
  push_be_bytes(&mut v, 5, 0);
  assert_eq!(v, vec![9, 1, 2, 3, 4, 5, 6, 7, 8, 7, 8]);
  assert_eq!(be_to_u64(&[1, 2, 3, 4, 5, 6, 7, 8]), 0x0102030405060708);
  assert_eq!(be_to_u64(&[0xff; 8]), u64::MAX);
  assert_eq!(be_to_u64(&[]), 0);
  assert_eq!(MajorType::from_u8(0x7f), MajorType::Text);
  assert_eq!(ExtendedSize::from_u8(0x7b), ExtendedSize::U64);
}

#[test]
fn seeking_moves_the_cursor() {
  let mut cursor = Cursor::new(vec![1, 2, 3, 4, 5]);
  assert_eq!(cursor.seek(SeekFrom::Start(3)), Ok(3));
  assert_eq!(cursor.seek(SeekFrom::Current(-2)), Ok(1));
  assert_eq!(cursor.seek(SeekFrom::End(-1)), Ok(4));
  assert_eq!(cursor.seek(SeekFrom::End(10)), Ok(15));
  assert_eq!(cursor.position(), 15);
  assert_eq!(cursor.seek(SeekFrom::End(-6)).unwrap_err().kind(), ErrorKind::InvalidInput);
  assert_eq!(cursor.seek(SeekFrom::Current(-16)).unwrap_err().kind(), ErrorKind::InvalidInput);
  assert_eq!(cursor.position(), 15);
  assert_eq!(cursor.seek(SeekFrom::Start(u64::MAX)), Ok(u64::MAX));
  assert_eq!(cursor.seek(SeekFrom::Current(1)).unwrap_err().kind(), ErrorKind::InvalidInput);
}

fn records() -> Vec<(String, Vec<u8>)> {
  let mut records = Vec::new();
  let mut seed: u64 = 7;
  for i in 0..200usize {
    seed = seed.wrapping_mul(6364136223846793005).wrapping_add(1442695040888963407);
    let key: String = (0..(seed >> 60) as usize).map(|j| (b'a' + ((seed >> (j * 5)) % 26) as u8) as char).collect();
    let value: Vec<u8> = (0..(i * 3) % 300).map(|j| (seed >> (j % 56)) as u8).collect();
    records.push((key, value));
  }
  records
}

#[test]
fn records_come_back_in_the_order_of_writing() {
  let records = records();
  let mut writer = SSTableWriterBuilder::new("t.sst").build();
  for (key, value) in &records {
    writer.write((key.as_str(), value.as_slice())).unwrap();
  }
  let (data, _) = writer.flush().unwrap();
  let mut reader = SSTableReader::<(String, Vec<u8>)>::from_bytes(data);
  for record in &records {
    assert_eq!(reader.next(), Some(Ok(record.clone())));
  }
  assert_eq!(reader.next(), None);
  assert_eq!(reader.next(), None);
}

#[test]
fn each_offset_of_the_index_leads_to_its_record() {
  let records = records();
  let mut writer = SSTableWriterBuilder::new("t.sst").build();
  for (key, value) in &records {
    writer.write((key.as_str(), value.as_slice())).unwrap();
  }
  let (data, index) = writer.flush().unwrap();
  let index = SSTableIndex::<String>::from_bytes(index).unwrap();
  assert_eq!(index.indices.len(), records.len());

  // Reading one after the other meets the records at the offsets of the index.
  let mut sequential = SSTableReader::<(String, Vec<u8>)>::from_bytes(data.clone());
  let mut seeking = SSTableReader::<(String, Vec<u8>)>::from_bytes(data);
  let mut last: Option<u64> = None;
  for (i, (key, offset)) in index.indices.iter().enumerate().rev() {
    assert_eq!(key, &records[i].0);
    seeking.seek(SeekFrom::Start(*offset)).unwrap();
    assert_eq!(seeking.next(), Some(Ok(records[i].clone())));
    if let Some(next) = last {
      assert!(*offset < next);
    }
    last = Some(*offset);
  }
  for (_, offset) in &index.indices {
    assert_eq!(sequential.stream_position(), *offset);
    sequential.next().unwrap().unwrap();
  }
}

#[test]
fn empty_files_hold_nothing() {
  let mut reader = SSTableReader::<(String, String)>::from_bytes(Vec::new());
  assert_eq!(reader.next(), None);
  assert_eq!(reader.stream_position(), 0);
  let index = SSTableIndex::<String>::from_bytes(Vec::new()).unwrap();
  assert!(index.indices.is_empty());
  let index = SSTableIndex::<u64>::from_bytes(Vec::new()).unwrap();
  assert!(index.indices.is_empty());
}

#[test]
fn an_index_that_breaks_off_does_not_load() {
  let mut writer = SSTableWriterBuilder::new("t.sst").build();
  writer.write(("a", "1")).unwrap();
  writer.write(("b", "2")).unwrap();
  let (_, mut index) = writer.flush().unwrap();
  index.pop();
  assert_eq!(SSTableIndex::<String>::from_bytes(index.clone()).unwrap_err().kind(), ErrorKind::UnexpectedEof);
  assert_eq!(SSTableIndex::<u64>::from_bytes(index).unwrap_err().kind(), ErrorKind::InvalidData);
}

#[test]
fn write_cbor_functions_append() {
  let mut v = vec![0xff];
  write_cbor_unsigned_integer(&mut v, 24);
  write_cbor_text(&mut v, "a");
  write_cbor_bytes(&mut v, &[9]);
  assert_eq!(v, vec![0xff, 0x18, 0x18, 0x61, 0x61, 0x41, 0x09]);
}
