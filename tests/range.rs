use csv_index::range::Bound::{self, Excluded, Included, Unbounded};
use csv_index::range::{range_contains, ranges_overlap, Range};

#[test]
fn test_both_unbound() {
    let r1: (Bound<u8>, Bound<u8>) = (Unbounded, Unbounded);
    let r2: (Bound<u8>, Bound<u8>) = (Unbounded, Unbounded);
    assert!(ranges_overlap(&r1, &r2));
}

#[test]
fn test_one_unbound() {
    let r1: (Bound<u8>, Bound<u8>) = (Unbounded, Unbounded);
    let r2 = (Included(0), Unbounded);

    assert!(ranges_overlap(&r1, &r2));
    assert!(ranges_overlap(&r2, &r1));
}

#[test]
fn test_lower_unbound() {
    let r1: Range<u8> = (Unbounded, Included(8));
    let r2: Range<u8> = (Unbounded, Included(6));

    assert!(ranges_overlap(&r1, &r2));
    assert!(ranges_overlap(&r2, &r1));
}

#[test]
fn test_upper_unbound() {
    let r1: Range<u8> = (Included(8), Unbounded);
    let r2: Range<u8> = (Included(6), Unbounded);

    assert!(ranges_overlap(&r1, &r2));
    assert!(ranges_overlap(&r2, &r1));
}

#[test]
fn test_one_lower_unbound() {
    let r1: Range<u8> = (Unbounded, Included(8));
    let r2: Range<u8> = (Included(0), Included(2));

    assert!(ranges_overlap(&r1, &r2));
    assert!(ranges_overlap(&r2, &r1));
}

#[test]
fn test_one_upper_unbound() {
    let r1: Range<u8> = (Included(0), Unbounded);
    let r2: Range<u8> = (Included(4), Included(6));

    assert!(ranges_overlap(&r1, &r2));
    assert!(ranges_overlap(&r2, &r1));
}

#[test]
fn test_full_enclosed() {
    let r1: Range<u8> = (Included(2), Included(4));
    let r2: Range<u8> = (Included(0), Included(6));

    assert!(ranges_overlap(&r1, &r2));
    assert!(ranges_overlap(&r2, &r1));
}

#[test]
fn test_overlap() {
    let r1: Range<u8> = (Included(0), Included(4));
    let r2: Range<u8> = (Included(2), Included(6));

    assert!(ranges_overlap(&r1, &r2));
    assert!(ranges_overlap(&r2, &r1));
}

#[test]
fn test_no_overlap() {
    let r1: Range<u8> = (Included(0), Included(2));
    let r2: Range<u8> = (Included(4), Included(6));

    assert!(!ranges_overlap(&r1, &r2));
    assert!(!ranges_overlap(&r2, &r1));
}

#[test]
fn test_no_overlap_unbound() {
    let r1: Range<u8> = (Unbounded, Included(2));
    let r2: Range<u8> = (Included(4), Unbounded);

    assert!(!ranges_overlap(&r1, &r2));
    assert!(!ranges_overlap(&r2, &r1));
}

#[test]
fn test_overlap_excl() {
    let r1: Range<u8> = (Included(0), Included(4));
    let r2: Range<u8> = (Excluded(2), Excluded(6));

    assert!(ranges_overlap(&r1, &r2));
    assert!(ranges_overlap(&r2, &r1));
}

#[test]
fn test_overlap_incl() {
    let r1: Range<u8> = (Included(0), Included(4));
    let r2: Range<u8> = (Included(4), Included(6));

    assert!(ranges_overlap(&r1, &r2));
    assert!(ranges_overlap(&r2, &r1));
}

#[test]
fn test_no_overlap_excl_one() {
    let r1: Range<u8> = (Included(0), Excluded(4));
    let r2: Range<u8> = (Included(4), Included(6));

    assert!(!ranges_overlap(&r1, &r2));
    assert!(!ranges_overlap(&r2, &r1));
}

#[test]
fn test_no_overlap_excl_both() {
    let r1: Range<u8> = (Included(0), Excluded(4));
    let r2: Range<u8> = (Excluded(4), Included(6));

    assert!(!ranges_overlap(&r1, &r2));
    assert!(!ranges_overlap(&r2, &r1));
}

#[test]
fn excluded_lower_beats_included_at_equal_value() {
    // [4, 4] and (4, 6]: the tighter lower end is the excluded 4
    let r1: Range<u8> = (Included(4), Included(4));
    let r2: Range<u8> = (Excluded(4), Included(6));
    assert!(!ranges_overlap(&r1, &r2));
    assert!(!ranges_overlap(&r2, &r1));
}

#[test]
fn overlap_is_symmetric_on_small_ranges() {
    let ends: Vec<Bound<u8>> = vec![
        Unbounded,
        Included(1),
        Excluded(1),
        Included(2),
        Excluded(2),
        Included(3),
        Excluded(3),
    ];
    for a in 0..ends.len() {
        for b in 0..ends.len() {
            for c in 0..ends.len() {
                for d in 0..ends.len() {
                    let r1 = (copy(&ends[a]), copy(&ends[b]));
                    let r2 = (copy(&ends[c]), copy(&ends[d]));
                    assert_eq!(ranges_overlap(&r1, &r2), ranges_overlap(&r2, &r1));
                }
            }
        }
    }
}

fn copy(b: &Bound<u8>) -> Bound<u8> {
    match b {
        Unbounded => Unbounded,
        Included(v) => Included(*v),
        Excluded(v) => Excluded(*v),
    }
}

#[test]
fn byte_string_ranges_compare_lexicographically() {
    let q: Range<Vec<u8>> = (Included(b"Ams".to_vec()), Included(b"Ams\xff\xff\xff\xff".to_vec()));
    assert!(range_contains(&q, &b"Amsterdam".to_vec()));
    assert!(!range_contains(&q, &b"Boston".to_vec()));
    assert!(!range_contains(&q, &b"Am".to_vec()));
    let chunk: Range<Vec<u8>> = (Included(b"B".to_vec()), Unbounded);
    assert!(!ranges_overlap(&q, &chunk));
}
