use sstables::cbor::write_cbor_bytes;
use sstables::error::ErrorKind;
use sstables::read::SeekFrom;
use sstables::sstable_reader::SSTableReader;

#[test]
fn test_sstable_reader_bytes() {
  let mut fixture = Vec::new();
  write_cbor_bytes(&mut fixture, &[67]);
  write_cbor_bytes(&mut fixture, &[97, 122]);
  write_cbor_bytes(&mut fixture, &[69, 99]);

  let mut reader = SSTableReader::<Vec<u8>>::from_bytes(fixture);
  assert_eq!(reader.next(), Some(Ok(vec![67])));
  assert_eq!(reader.next(), Some(Ok(vec![97, 122])));
  assert_eq!(reader.next(), Some(Ok(vec![69, 99])));
  assert_eq!(reader.next(), None);
}

#[test]
fn a_reader_of_text_reads_text() {
  let mut reader = SSTableReader::<String>::from_bytes(vec![0x61, 0x61, 0x60, 0x62, 0xc3, 0xa9, 0x41, 0x00]);
  assert_eq!(reader.next(), Some(Ok("a".to_string())));
  assert_eq!(reader.next(), Some(Ok("".to_string())));
  assert_eq!(reader.next(), Some(Ok("\u{e9}".to_string())));
  assert_eq!(reader.next().unwrap().unwrap_err().kind(), ErrorKind::InvalidData);
  assert_eq!(reader.stream_position(), 6);
}

#[test]
fn a_record_that_breaks_off_is_an_error_and_the_end_is_none() {
  let mut reader = SSTableReader::<(String, String)>::from_bytes(vec![0x61, 0x61, 0x61, 0x31, 0x61, 0x62]);
  assert_eq!(reader.next(), Some(Ok(("a".to_string(), "1".to_string()))));
  assert_eq!(reader.next().unwrap().unwrap_err().kind(), ErrorKind::UnexpectedEof);
  assert_eq!(reader.stream_position(), 4);
  assert_eq!(reader.seek(SeekFrom::End(0)), Ok(6));
  assert_eq!(reader.next(), None);
  assert_eq!(reader.seek(SeekFrom::Start(100)), Ok(100));
  assert_eq!(reader.next(), None);
  assert_eq!(reader.seek(SeekFrom::Current(-101)).unwrap_err().kind(), ErrorKind::InvalidInput);
}
