use sstables::files::{create_index_path, get_path_str};
use sstables::natural::{is_natural_sorted, natural_binary_search_first, natural_sort, Natural};
use sstables::order::has_keys_sorted_in;
use sstables::util::{compare_tuples, get_min_max, is_sorted_by, is_unique};
use std::cmp::Ordering;

#[test]
fn compare_tuples_goes_by_the_first_part() {
  assert_eq!(compare_tuples(&(1u64, 2), &(1u64, 3)), Ordering::Equal);
  assert_eq!(compare_tuples(&(1u64, 2), &(2u64, 3)), Ordering::Less);
  assert_eq!(compare_tuples(&(2u64, 2), &(1u64, 3)), Ordering::Greater);
  assert_eq!(compare_tuples(&(255u64, 0), &(256u64, 0)), Ordering::Less);
  assert_eq!(compare_tuples(&(u64::MAX, 0), &(0u64, 0)), Ordering::Greater);
  let s = |t: &str| t.to_string();
  assert_eq!(compare_tuples(&(s("00"), 0), &(s("5"), 0)), Ordering::Less);
  assert_eq!(compare_tuples(&(s("a"), 0), &(s("ab"), 0)), Ordering::Less);
  assert_eq!(compare_tuples(&(s("b"), 0), &(s("ab"), 0)), Ordering::Greater);
  assert_eq!(compare_tuples(&(s(""), 0), &(s(""), 1)), Ordering::Equal);
  assert_eq!(compare_tuples(&(s("z"), 0), &(s("\u{e9}"), 0)), Ordering::Less);
  assert_eq!(compare_tuples(&(vec![1u8, 2], 0), &(vec![1u8, 2, 0], 0)), Ordering::Less);
  assert_eq!(compare_tuples(&(vec![2u8], 0), &(vec![1u8, 255], 0)), Ordering::Greater);
}

#[test]
fn natural_order_is_the_order_of_the_keys_themselves() {
  let mut texts: Vec<&str> = vec!["b", "", "00", "a", "ab", "5", "\u{e9}", "z", "10"];
  let mut expected = texts.clone();
  expected.sort();
  texts.sort_by(|a, b| compare_tuples(&(a.to_string(), 0), &(b.to_string(), 0)));
  assert_eq!(texts, expected);

  let mut numbers: Vec<u64> = vec![300, 2, 0, u64::MAX, 70000, 24, 255, 256, 1 << 32];
  let mut expected = numbers.clone();
  expected.sort();
  numbers.sort_by(|a, b| compare_tuples(&(*a, 0), &(*b, 0)));
  assert_eq!(numbers, expected);
}

#[test]
fn is_sorted_by_looks_at_neighbours() {
  assert!(is_sorted_by(&[1, 2, 2, 3], |a: &i32, b: &i32| a <= b));
  assert!(!is_sorted_by(&[1, 2, 2, 3], |a: &i32, b: &i32| a < b));
  assert!(!is_sorted_by(&[1, 3, 2], |a: &i32, b: &i32| a <= b));
  assert!(is_sorted_by(&[7], |_: &i32, _: &i32| false));
  assert!(is_sorted_by(&[], |_: &i32, _: &i32| false));
  let index = vec![("a".to_string(), 3u64), ("b".to_string(), 1), ("b".to_string(), 0)];
  assert!(is_sorted_by(&index, |a, b| compare_tuples(a, b) != Ordering::Greater));
}

#[test]
fn is_unique_looks_at_neighbours() {
  let slice = &[2, 1, 3, 5, 4];
  assert_eq!(is_unique(slice, |a: &i32, b: &i32| a == b), true);
  assert_eq!(is_unique(&[2, 1, 1, 5], |a: &i32, b: &i32| a == b), false);
  assert_eq!(is_unique(&[1, 2, 1], |a: &i32, b: &i32| a == b), true);
  assert_eq!(is_unique(&[1, 2, 1], |a: &i32, b: &i32| a < b), false);
  assert_eq!(is_unique(&[1], |_: &i32, _: &i32| true), true);
  assert_eq!(is_unique(&[], |_: &i32, _: &i32| true), true);
}

#[test]
fn get_min_max_gives_the_ends() {
  let slice = &[(2u64, 0u64), (1, 0), (3, 0), (5, 0), (4, 0)];
  let (min, max) = get_min_max(slice).unwrap();
  assert_eq!(min, &(1, 0));
  assert_eq!(max, &(5, 0));

  let slice = &[(2u64, 7u64), (2, 3), (9, 1), (9, 4)];
  let (min, max) = get_min_max(slice).unwrap();
  assert_eq!(min, &(2, 3));
  assert_eq!(max, &(9, 4));

  let texts = vec![("m".to_string(), 0u64), ("00".to_string(), 1), ("z".to_string(), 2), ("5".to_string(), 3)];
  let (min, max) = get_min_max(&texts).unwrap();
  assert_eq!(min.0, "00");
  assert_eq!(max.0, "z");

  let one = &[(vec![1u8], 0u64)];
  assert_eq!(get_min_max(one), Some((&one[0], &one[0])));
  let none: &[(u64, u64)] = &[];
  assert_eq!(get_min_max(none), None);
}

#[test]
fn natural_sort_and_search() {
  let mut index: Vec<(String, u64)> =
    vec![("b", 9), ("00", 1), ("a", 7), ("b", 3), ("", 2), ("5", 0)].into_iter().map(|(k, o)| (k.to_string(), o)).collect();
  assert!(!is_natural_sorted(&index));
  assert!(!has_keys_sorted_in::<String, Natural>(&index));
  natural_sort(&mut index);
  let sorted: Vec<(&str, u64)> = index.iter().map(|(k, o)| (k.as_str(), *o)).collect();
  assert_eq!(sorted, vec![("", 2), ("00", 1), ("5", 0), ("a", 7), ("b", 3), ("b", 9)]);
  assert!(is_natural_sorted(&index));
  assert!(has_keys_sorted_in::<String, Natural>(&index));
  assert_eq!(natural_binary_search_first(&index, &"b".to_string()), Ok(4));
  assert_eq!(natural_binary_search_first(&index, &"".to_string()), Ok(0));
  assert_eq!(natural_binary_search_first(&index, &"0".to_string()), Err(1));
  assert_eq!(natural_binary_search_first(&index, &"c".to_string()), Err(6));

  // Sorted by key, but not by offset among the entries of one key.
  let by_key = vec![(1u64, 5u64), (2, 9), (2, 3)];
  assert!(has_keys_sorted_in::<u64, Natural>(&by_key));
  assert!(!is_natural_sorted(&by_key));
}

#[test]
fn paths_are_text() {
  assert_eq!(get_path_str(&"dir/foo.sst".to_string()), "dir/foo.sst");
  assert_eq!(create_index_path("dir/foo.sst"), "dir/foo.index.sst");
}
