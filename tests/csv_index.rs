use csv_index::address::Address;
use csv_index::csv_index::{CsvIndex, CsvIndexType};
use csv_index::range::Bound::{Excluded, Included, Unbounded};
use csv_index::text::parse_i64;

fn addr(offset: u64, length: u64) -> Address {
    Address { offset, length }
}

#[test]
fn try_new_accepts_kinds_in_any_case() {
    assert!(matches!(CsvIndexType::try_new("str"), Ok(CsvIndexType::STR(_))));
    assert!(matches!(CsvIndexType::try_new("Int"), Ok(CsvIndexType::I64(_))));
    assert!(matches!(CsvIndexType::try_new("FLOAT"), Ok(CsvIndexType::F64(_))));
    assert!(CsvIndexType::try_new("date").is_err());
    assert!(CsvIndexType::try_new("").is_err());
}

#[test]
fn entry_appends_postings_in_insertion_order() {
    let mut index: CsvIndex<Vec<u8>> = CsvIndex::new();
    index.entry(b"b".to_vec(), addr(10, 5));
    index.entry(b"a".to_vec(), addr(20, 5));
    index.entry(b"b".to_vec(), addr(30, 5));
    assert_eq!(index.uniques(), 2);
    assert_eq!(index.keys(), vec![b"a".to_vec(), b"b".to_vec()]);
    let all = index.matching_addresses(&(Unbounded, Unbounded));
    assert_eq!(all, vec![addr(20, 5), addr(10, 5), addr(30, 5)]);
}

#[test]
fn matching_addresses_respects_bounds() {
    let mut index: CsvIndex<i64> = CsvIndex::new();
    for (k, o) in [(5i64, 1u64), (1, 2), (3, 3), (9, 4), (3, 5)] {
        index.entry(k, addr(o, 1));
    }
    assert_eq!(index.matching_addresses(&(Included(3), Excluded(9))), vec![addr(3, 1), addr(5, 1), addr(1, 1)]);
    assert_eq!(index.matching_addresses(&(Excluded(3), Included(9))), vec![addr(1, 1), addr(4, 1)]);
    assert_eq!(index.matching_addresses(&(Included(6), Included(8))), vec![]);
}

#[test]
fn integer_index_files_bad_fields_under_min() {
    let mut index = CsvIndexType::try_new("int").unwrap();
    index.insert(b"42".to_vec(), addr(0, 1));
    index.insert(b"x1".to_vec(), addr(1, 1));
    index.insert(b"-7".to_vec(), addr(2, 1));
    index.insert(b"".to_vec(), addr(3, 1));
    assert_eq!(index.uniques(), 3);
    match index {
        CsvIndexType::I64(i) => {
            assert_eq!(i.keys(), vec![i64::MIN, -7, 42]);
            let (min, max) = i.key_range(&Some(i64::MIN));
            assert_eq!(min, Some(-7));
            assert_eq!(max, Some(42));
        }
        _ => panic!("wrong kind"),
    }
}

#[test]
fn float_index_files_by_total_order() {
    let mut index = CsvIndexType::try_new("float").unwrap();
    index.insert_float(Some(2.5f64.to_bits()), addr(0, 1));
    index.insert_float(None, addr(1, 1));
    index.insert_float(Some((-1.0f64).to_bits()), addr(2, 1));
    match index {
        CsvIndexType::F64(i) => {
            let keys = i.keys();
            assert_eq!(keys.len(), 3);
            assert_eq!(keys[0], csv_index::key::float_key(f64::NEG_INFINITY.to_bits()));
            assert_eq!(keys[2], csv_index::key::float_key(2.5f64.to_bits()));
        }
        _ => panic!("wrong kind"),
    }
}

#[test]
fn key_range_of_byte_strings() {
    let mut index: CsvIndex<Vec<u8>> = CsvIndex::new();
    assert_eq!(index.key_range(&None), (None, None));
    index.entry(b"m".to_vec(), addr(0, 1));
    index.entry(b"c".to_vec(), addr(0, 1));
    assert_eq!(index.key_range(&None), (Some(b"c".to_vec()), Some(b"m".to_vec())));
}

#[test]
fn parses_decimal_integers() {
    assert_eq!(parse_i64(b"0"), Some(0));
    assert_eq!(parse_i64(b"+17"), Some(17));
    assert_eq!(parse_i64(b"-9223372036854775808"), Some(i64::MIN));
    assert_eq!(parse_i64(b"9223372036854775807"), Some(i64::MAX));
    assert_eq!(parse_i64(b"9223372036854775808"), None);
    assert_eq!(parse_i64(b"-9223372036854775809"), None);
    assert_eq!(parse_i64(b"-"), None);
    assert_eq!(parse_i64(b""), None);
    assert_eq!(parse_i64(b" 1"), None);
    assert_eq!(parse_i64(b"1.5"), None);
    assert_eq!(parse_i64(b"00012"), Some(12));
}

#[test]
fn merge_appends_postings_key_by_key() {
    let mut a: CsvIndex<i64> = CsvIndex::new();
    a.entry(1, addr(1, 1));
    a.entry(3, addr(3, 1));
    a.entry(5, addr(5, 1));
    let mut b: CsvIndex<i64> = CsvIndex::new();
    b.entry(3, addr(30, 1));
    b.entry(4, addr(40, 1));
    b.entry(9, addr(90, 1));
    let m = CsvIndex::merge(a, b);
    assert_eq!(m.keys(), vec![1, 3, 4, 5, 9]);
    let all: Vec<u64> = m.matching_addresses(&(Unbounded, Unbounded)).iter().map(|a| a.offset).collect();
    assert_eq!(all, vec![1, 3, 30, 40, 5, 90]);
}

#[test]
fn batch_build_matches_filing_one_by_one() {
    let keys = [7i64, 3, 7, 1, 9, 3, 3, 0, 12, 7, -4, 9];
    let items: Vec<(i64, Address)> =
        keys.iter().enumerate().map(|(i, k)| (*k, addr(i as u64, 1))).collect();
    let batch = csv_index::index::build_batch(&items, 0, items.len());
    let mut one_by_one: CsvIndex<i64> = CsvIndex::new();
    for (k, a) in &items {
        one_by_one.entry(*k, *a);
    }
    assert_eq!(batch.keys(), one_by_one.keys());
    assert_eq!(
        batch.matching_addresses(&(Unbounded, Unbounded)),
        one_by_one.matching_addresses(&(Unbounded, Unbounded))
    );
    let mut absorbed: CsvIndex<i64> = CsvIndex::new();
    absorbed.entry(3, addr(100, 1));
    absorbed.absorb(batch);
    let threes = absorbed.matching_addresses(&(Included(3), Included(3)));
    assert_eq!(threes, vec![addr(100, 1), addr(1, 1), addr(5, 1), addr(6, 1)]);
}
