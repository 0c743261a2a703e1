use sstables::cbor_types::{
    get_embedded_value, get_embedded_value_for_u64, get_value_bytes, write_cbor_head, ExtendedSize,
    MajorType,
};


#[test]
fn cbor_types_get_embedded_value_for_u64_works() {
  assert_eq!(get_embedded_value_for_u64(0), 0);
  assert_eq!(get_embedded_value_for_u64(1), 1);
  assert_eq!(get_embedded_value_for_u64(23), 23);
  assert_eq!(get_embedded_value_for_u64(24), 24);
  assert_eq!(get_embedded_value_for_u64(25), 24);
  assert_eq!(get_embedded_value_for_u64(255), 24);
  assert_eq!(get_embedded_value_for_u64(256), 25);
  assert_eq!(get_embedded_value_for_u64(65535), 25);
  assert_eq!(get_embedded_value_for_u64(65536), 26);
  assert_eq!(get_embedded_value_for_u64(4294967295), 26);
  assert_eq!(get_embedded_value_for_u64(4294967296), 27);
  assert_eq!(get_embedded_value_for_u64(u64::MAX), 27);
}

#[test]
fn get_value_bytes_works() {
  assert_eq!(get_value_bytes(0), vec![0]);
  assert_eq!(get_value_bytes(1), vec![1]);
  assert_eq!(get_value_bytes(23), vec![23]);
  assert_eq!(get_value_bytes(24), vec![24, 24]);
  assert_eq!(get_value_bytes(25), vec![24, 25]);
  assert_eq!(get_value_bytes(255), vec![24, 255]);
  assert_eq!(get_value_bytes(256), vec![25, 1, 0]);
  assert_eq!(get_value_bytes(65535), vec![25, 255, 255]);
  assert_eq!(get_value_bytes(65536), vec![26, 0, 1, 0, 0]);
  assert_eq!(get_value_bytes(4294967295), vec![26, 255, 255, 255, 255]);
  assert_eq!(get_value_bytes(4294967296), vec![27, 0, 0, 0, 1, 0, 0, 0, 0]);
  assert_eq!(
    get_value_bytes(u64::MAX),
    vec![27, 255, 255, 255, 255, 255, 255, 255, 255]
  );
}

#[test]
fn cbor_types_get_embedded_value_works() {
  assert_eq!(get_embedded_value(0), 0);
  assert_eq!(get_embedded_value(1), 1);
  assert_eq!(get_embedded_value(23), 23);
  assert_eq!(get_embedded_value(24), 24);
  assert_eq!(get_embedded_value(25), 25);
  assert_eq!(get_embedded_value(255), 31);
}

#[test]
fn cbor_types_extended_size_from_u8_works() {
  assert_eq!(ExtendedSize::from_u8(0), ExtendedSize::Embedded);
  assert_eq!(ExtendedSize::from_u8(1), ExtendedSize::Embedded);
  assert_eq!(ExtendedSize::from_u8(23), ExtendedSize::Embedded);
  assert_eq!(ExtendedSize::from_u8(24), ExtendedSize::U8);
  assert_eq!(ExtendedSize::from_u8(25), ExtendedSize::U16);
  assert_eq!(ExtendedSize::from_u8(26), ExtendedSize::U32);
  assert_eq!(ExtendedSize::from_u8(27), ExtendedSize::U64);
  assert_eq!(ExtendedSize::from_u8(28), ExtendedSize::Embedded);
  assert_eq!(ExtendedSize::from_u8(29), ExtendedSize::Embedded);
  assert_eq!(ExtendedSize::from_u8(30), ExtendedSize::Embedded);
  assert_eq!(ExtendedSize::from_u8(31), ExtendedSize::Embedded);
}

#[test]
fn cbor_types_extended_size_as_u8_works() {
  assert_eq!(ExtendedSize::Embedded.as_u8(), 0);
  assert_eq!(ExtendedSize::U8.as_u8(), 24);
  assert_eq!(ExtendedSize::U16.as_u8(), 25);
  assert_eq!(ExtendedSize::U32.as_u8(), 26);
  assert_eq!(ExtendedSize::U64.as_u8(), 27);
}

#[test]
fn cbor_types_major_type_from_u8_works() {
  assert_eq!(MajorType::from_u8(0 << 5), MajorType::UnsignedInteger);
  assert_eq!(MajorType::from_u8(1 << 5), MajorType::NegativeInteger);
  assert_eq!(MajorType::from_u8(2 << 5), MajorType::Bytes);
  assert_eq!(MajorType::from_u8(3 << 5), MajorType::Text);
  assert_eq!(MajorType::from_u8(4 << 5), MajorType::Array);
  assert_eq!(MajorType::from_u8(5 << 5), MajorType::Object);
  assert_eq!(MajorType::from_u8(6 << 5), MajorType::SemanticTag);
  assert_eq!(MajorType::from_u8(7 << 5), MajorType::NoContentType);
}

#[test]
fn cbor_types_write_cbor_head_works() {
  let mut v: Vec<u8> = Vec::new();

  write_cbor_head(MajorType::UnsignedInteger, 0, &mut v);
  assert_eq!(v, vec![0]);
  v.clear();

  write_cbor_head(MajorType::NegativeInteger, 0, &mut v);
  assert_eq!(v, vec![32]);
  v.clear();

  write_cbor_head(MajorType::Bytes, 0, &mut v);
  assert_eq!(v, vec![64]);
  v.clear();

  write_cbor_head(MajorType::Text, 0, &mut v);
  assert_eq!(v, vec![96]);
  v.clear();

  write_cbor_head(MajorType::Array, 0, &mut v);
  assert_eq!(v, vec![128]);
  v.clear();

  write_cbor_head(MajorType::Object, 0, &mut v);
  assert_eq!(v, vec![160]);
  v.clear();

  write_cbor_head(MajorType::SemanticTag, 0, &mut v);
  assert_eq!(v, vec![192]);
  v.clear();

  write_cbor_head(MajorType::NoContentType, 0, &mut v);
  assert_eq!(v, vec![224]);
  v.clear();

  write_cbor_head(MajorType::Bytes, 40000, &mut v);
  assert_eq!(v, vec![89, 156, 64]);
  v.clear();

  write_cbor_head(MajorType::Bytes, 66000, &mut v);
  assert_eq!(v, vec![90, 0, 1, 1, 208]);
  v.clear();

  write_cbor_head(MajorType::Bytes, 4294967296, &mut v);
  assert_eq!(v, vec![91, 0, 0, 0, 1, 0, 0, 0, 0]);
  v.clear();

  write_cbor_head(MajorType::Bytes, u64::MAX, &mut v);
  assert_eq!(v, vec![91, 255, 255, 255, 255, 255, 255, 255, 255]);
  v.clear();
}
