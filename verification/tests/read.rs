use sstables::error::ErrorKind;
use sstables::read::{take_byte, take_byte_array, take_byte_slice, Cursor};

#[test]
fn test_take_byte() {
  let mut cursor = Cursor::new(vec![1, 2, 3, 4, 5]);
  assert_eq!(take_byte(&mut cursor).unwrap(), 1);
  assert_eq!(take_byte(&mut cursor).unwrap(), 2);
  assert_eq!(take_byte(&mut cursor).unwrap(), 3);
  assert_eq!(take_byte(&mut cursor).unwrap(), 4);
  assert_eq!(take_byte(&mut cursor).unwrap(), 5);
  assert_eq!(cursor.position(), 5);
}

#[test]
fn test_take_byte_too_many() {
  let mut cursor = Cursor::new(vec![1, 2, 3, 4, 5]);
  assert_eq!(take_byte(&mut cursor).unwrap(), 1);
  assert_eq!(take_byte(&mut cursor).unwrap(), 2);
  assert_eq!(take_byte(&mut cursor).unwrap(), 3);
  assert_eq!(take_byte(&mut cursor).unwrap(), 4);
  assert_eq!(take_byte(&mut cursor).unwrap(), 5);
  assert_eq!(take_byte(&mut cursor).unwrap_err().kind(), ErrorKind::UnexpectedEof);
  assert_eq!(cursor.position(), 5);
}

#[test]
fn test_take_byte_array() {
  let mut cursor = Cursor::new(vec![1, 2, 3, 4, 5]);
  assert_eq!(take_byte_array::<5>(&mut cursor).unwrap(), [1, 2, 3, 4, 5]);
  assert_eq!(cursor.position(), 5);
}

#[test]
fn test_take_byte_array_too_many() {
  let mut cursor = Cursor::new(vec![1, 2, 3, 4, 5]);
  assert_eq!(take_byte_array::<5>(&mut cursor).unwrap(), [1, 2, 3, 4, 5]);
  assert_eq!(
    take_byte_array::<5>(&mut cursor).unwrap_err().kind(),
    ErrorKind::UnexpectedEof
  );
  assert_eq!(cursor.position(), cursor.get_ref().len() as u64);
}

#[test]
fn test_take_byte_slice() {
  let mut cursor = Cursor::new(vec![1, 2, 3, 4, 5]);
  assert_eq!(take_byte_slice(&mut cursor, 3).unwrap(), [1, 2, 3]);
  assert_eq!(cursor.position(), 3);
}

#[test]
fn test_take_byte_slice_too_many() {
  let mut cursor = Cursor::new(vec![1, 2, 3, 4, 5]);
  assert_eq!(take_byte_slice(&mut cursor, 3).unwrap(), [1, 2, 3]);
  assert_eq!(
    take_byte_slice(&mut cursor, 3).unwrap_err().kind(),
    ErrorKind::UnexpectedEof
  );
  assert_eq!(cursor.position(), 3);
}

#[test]
fn take_of_nothing_succeeds_behind_the_end() {
  let mut cursor = Cursor::new(vec![1, 2]);
  cursor.set_position(7);
  assert_eq!(take_byte_slice(&mut cursor, 0).unwrap(), Vec::<u8>::new());
  assert_eq!(take_byte_array::<0>(&mut cursor).unwrap(), [0u8; 0]);
  assert_eq!(take_byte(&mut cursor).unwrap_err().kind(), ErrorKind::UnexpectedEof);
  assert_eq!(cursor.position(), 7);
  assert_eq!(cursor.into_inner(), vec![1, 2]);
}
