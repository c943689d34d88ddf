use csv_index::filter::{prefix_upper_bound, Filter, Operator};
use csv_index::key::float_key;
use csv_index::range::Bound::{Excluded, Included, Unbounded};

#[test]
fn operators_parse_in_any_case() {
    assert_eq!(Operator::from("eq"), Ok(Operator::EQ));
    assert_eq!(Operator::from("Lt"), Ok(Operator::LT));
    assert_eq!(Operator::from("LE"), Ok(Operator::LE));
    assert_eq!(Operator::from("gt"), Ok(Operator::GT));
    assert_eq!(Operator::from("ge"), Ok(Operator::GE));
    assert_eq!(Operator::from("in"), Ok(Operator::IN));
    assert_eq!(Operator::from("pre"), Ok(Operator::PRE));
    assert_eq!(Operator::from("sw"), Err("Unknown operator"));
    assert_eq!(Operator::from(""), Err("Unknown operator"));
}

#[test]
fn string_bounds_per_operator() {
    let f = Filter::from(Operator::EQ, "Boston", "", 0);
    assert_eq!(f.string_bounds(), (Included(b"Boston".to_vec()), Included(b"Boston".to_vec())));
    let f = Filter::from(Operator::LT, "b", "", 0);
    assert_eq!(f.string_bounds(), (Unbounded, Excluded(b"b".to_vec())));
    let f = Filter::from(Operator::GE, "b", "", 0);
    assert_eq!(f.string_bounds(), (Included(b"b".to_vec()), Unbounded));
    let f = Filter::from(Operator::IN, "Amsterdam", "Boston", 0);
    assert_eq!(f.string_bounds(), (Included(b"Amsterdam".to_vec()), Included(b"Boston".to_vec())));
    let f = Filter::from(Operator::PRE, "Ams", "", 0);
    assert_eq!(f.string_bounds(), (Included(b"Ams".to_vec()), Excluded(b"Amt".to_vec())));
}

#[test]
fn int_bounds_exclude_the_sentinel() {
    let f = Filter::from(Operator::GT, "0", "", 0);
    assert_eq!(f.int_bounds(), (Excluded(0), Excluded(i64::MAX)));
    let f = Filter::from(Operator::LE, "12", "", 0);
    assert_eq!(f.int_bounds(), (Excluded(i64::MIN), Included(12)));
    let f = Filter::from(Operator::EQ, "abc", "", 0);
    assert_eq!(f.int_bounds(), (Included(i64::MIN), Included(i64::MIN)));
    let f = Filter::from(Operator::IN, "-3", "3", 0);
    assert_eq!(f.int_bounds(), (Included(-3), Included(3)));
}

#[test]
fn float_bounds_exclude_the_infinities() {
    let f = Filter::from(Operator::GE, "1.5", "", 3);
    assert_eq!(f.column(), 3);
    let v = float_key(1.5f64.to_bits());
    let hi = float_key(f64::INFINITY.to_bits());
    assert_eq!(f.float_bounds(Some(1.5f64.to_bits()), None), (Included(v), Excluded(hi)));
    let lo = float_key(f64::NEG_INFINITY.to_bits());
    let f = Filter::from(Operator::LT, "x", "", 0);
    assert_eq!(f.float_bounds(None, None), (Excluded(lo), Excluded(lo)));
}

#[test]
fn prefix_upper_end_is_the_next_non_prefix_string() {
    assert_eq!(prefix_upper_bound(&b"Ams".to_vec()), Excluded(b"Amt".to_vec()));
    assert_eq!(prefix_upper_bound(&b"a\xff\xff".to_vec()), Excluded(b"b".to_vec()));
    assert_eq!(prefix_upper_bound(&b"\xff\xff".to_vec()), Unbounded);
    assert_eq!(prefix_upper_bound(&Vec::new()), Unbounded);
    // five trailing 0xFF bytes still fall inside the range
    let f = Filter::from(Operator::PRE, "Ams", "", 0);
    let r = f.string_bounds();
    assert!(csv_index::range::range_contains(&r, &b"Ams\xff\xff\xff\xff\xff".to_vec()));
    assert!(!csv_index::range::range_contains(&r, &b"Amt".to_vec()));
}
