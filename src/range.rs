//! Ranges of keys and the overlap test between two of them.

use vstd::prelude::*;

use crate::key::{key_le, IndexKey};

verus! {

/// One end of a range.
#[derive(Debug, PartialEq, Eq)]
pub enum Bound<K> {
    Unbounded,
    Included(K),
    Excluded(K),
}

/// A range of keys: its lower end, then its upper end.
pub type Range<K> = (Bound<K>, Bound<K>);

impl<K: View> View for Bound<K> {
    type V = Bound<K::V>;

    open spec fn view(&self) -> Bound<K::V> {
        match self {
            Bound::Unbounded => Bound::Unbounded,
            Bound::Included(k) => Bound::Included(k@),
            Bound::Excluded(k) => Bound::Excluded(k@),
        }
    }
}

/// The view of a range: the views of its two ends.
pub open spec fn range_view<K: View>(r: Range<K>) -> (Bound<K::V>, Bound<K::V>) {
    (r.0@, r.1@)
}

/// The tighter of two lower ends: an unbounded end loses, and at equal values
/// an excluded end is tighter than an included one.
pub open spec fn max_lower<K: IndexKey>(a: Bound<K::V>, b: Bound<K::V>) -> Bound<K::V> {
    match a {
        Bound::Unbounded => b,
        Bound::Included(x) => match b {
            Bound::Unbounded => a,
            Bound::Included(y) => if K::lt_spec(y, x) { a } else { b },
            Bound::Excluded(y) => if K::lt_spec(y, x) { a } else { b },
        },
        Bound::Excluded(x) => match b {
            Bound::Unbounded => a,
            Bound::Included(y) => if K::lt_spec(x, y) { b } else { a },
            Bound::Excluded(y) => if K::lt_spec(y, x) { a } else { b },
        },
    }
}

/// The tighter of two upper ends: an unbounded end loses, and at equal values
/// an excluded end is tighter than an included one.
pub open spec fn min_upper<K: IndexKey>(a: Bound<K::V>, b: Bound<K::V>) -> Bound<K::V> {
    match a {
        Bound::Unbounded => b,
        Bound::Included(x) => match b {
            Bound::Unbounded => a,
            Bound::Included(y) => if K::lt_spec(y, x) { b } else { a },
            Bound::Excluded(y) => if K::lt_spec(x, y) { a } else { b },
        },
        Bound::Excluded(x) => match b {
            Bound::Unbounded => a,
            Bound::Included(y) => if K::lt_spec(y, x) { b } else { a },
            Bound::Excluded(y) => if K::lt_spec(y, x) { b } else { a },
        },
    }
}

/// A lower end and an upper end leave room between them: `l <= u` when both
/// are included, `l < u` when either is excluded, always when either is
/// unbounded.
pub open spec fn ends_meet<K: IndexKey>(lower: Bound<K::V>, upper: Bound<K::V>) -> bool {
    match lower {
        Bound::Unbounded => true,
        Bound::Included(l) => match upper {
            Bound::Unbounded => true,
            Bound::Included(u) => key_le::<K>(l, u),
            Bound::Excluded(u) => K::lt_spec(l, u),
        },
        Bound::Excluded(l) => match upper {
            Bound::Unbounded => true,
            Bound::Included(u) => K::lt_spec(l, u),
            Bound::Excluded(u) => K::lt_spec(l, u),
        },
    }
}

/// Two ranges overlap when the tighter of their lower ends and the tighter of
/// their upper ends meet.
pub open spec fn overlap_spec<K: IndexKey>(
    r1: (Bound<K::V>, Bound<K::V>),
    r2: (Bound<K::V>, Bound<K::V>),
) -> bool {
    ends_meet::<K>(max_lower::<K>(r1.0, r2.0), min_upper::<K>(r1.1, r2.1))
}

/// `k` is at or above the lower end `b`.
pub open spec fn above_lower<K: IndexKey>(b: Bound<K::V>, k: K::V) -> bool {
    match b {
        Bound::Unbounded => true,
        Bound::Included(l) => key_le::<K>(l, k),
        Bound::Excluded(l) => K::lt_spec(l, k),
    }
}

/// `k` is at or below the upper end `b`.
pub open spec fn below_upper<K: IndexKey>(b: Bound<K::V>, k: K::V) -> bool {
    match b {
        Bound::Unbounded => true,
        Bound::Included(u) => key_le::<K>(k, u),
        Bound::Excluded(u) => K::lt_spec(k, u),
    }
}

/// `k` lies in the range `r`.
pub open spec fn in_range<K: IndexKey>(r: (Bound<K::V>, Bound<K::V>), k: K::V) -> bool {
    above_lower::<K>(r.0, k) && below_upper::<K>(r.1, k)
}

proof fn lemma_asymmetric<K: IndexKey>(a: K::V, b: K::V)
    requires
        K::lt_spec(a, b),
    ensures
        !K::lt_spec(b, a),
        a != b,
{
    if K::lt_spec(b, a) {
        K::lemma_transitive(a, b, a);
        K::lemma_irreflexive(a);
    }
    K::lemma_irreflexive(a);
}

proof fn lemma_max_lower_symmetric<K: IndexKey>(a: Bound<K::V>, b: Bound<K::V>)
    ensures
        max_lower::<K>(a, b) == max_lower::<K>(b, a),
{
    match (a, b) {
        (Bound::Included(x), Bound::Included(y)) | (Bound::Included(x), Bound::Excluded(y)) | (
            Bound::Excluded(x),
            Bound::Included(y),
        ) | (Bound::Excluded(x), Bound::Excluded(y)) => {
            K::lemma_total(x, y);
            if K::lt_spec(x, y) {
                lemma_asymmetric::<K>(x, y);
            }
            if K::lt_spec(y, x) {
                lemma_asymmetric::<K>(y, x);
            }
        },
        _ => {},
    }
}

proof fn lemma_min_upper_symmetric<K: IndexKey>(a: Bound<K::V>, b: Bound<K::V>)
    ensures
        min_upper::<K>(a, b) == min_upper::<K>(b, a),
{
    match (a, b) {
        (Bound::Included(x), Bound::Included(y)) | (Bound::Included(x), Bound::Excluded(y)) | (
            Bound::Excluded(x),
            Bound::Included(y),
        ) | (Bound::Excluded(x), Bound::Excluded(y)) => {
            K::lemma_total(x, y);
            if K::lt_spec(x, y) {
                lemma_asymmetric::<K>(x, y);
            }
            if K::lt_spec(y, x) {
                lemma_asymmetric::<K>(y, x);
            }
        },
        _ => {},
    }
}

/// Overlap is symmetric: `a` overlaps `b` exactly when `b` overlaps `a`.
pub proof fn lemma_overlap_symmetric<K: IndexKey>(
    a: (Bound<K::V>, Bound<K::V>),
    b: (Bound<K::V>, Bound<K::V>),
)
    ensures
        overlap_spec::<K>(a, b) == overlap_spec::<K>(b, a),
{
    lemma_max_lower_symmetric::<K>(a.0, b.0);
    lemma_min_upper_symmetric::<K>(a.1, b.1);
}

proof fn lemma_le_lt<K: IndexKey>(a: K::V, b: K::V, c: K::V)
    requires
        key_le::<K>(a, b),
        K::lt_spec(b, c),
    ensures
        K::lt_spec(a, c),
{
    if a != b {
        K::lemma_transitive(a, b, c);
    }
}

proof fn lemma_lt_le<K: IndexKey>(a: K::V, b: K::V, c: K::V)
    requires
        K::lt_spec(a, b),
        key_le::<K>(b, c),
    ensures
        K::lt_spec(a, c),
{
    if b != c {
        K::lemma_transitive(a, b, c);
    }
}

/// Two ranges that hold a common key overlap.
pub proof fn lemma_common_key_overlaps<K: IndexKey>(
    a: (Bound<K::V>, Bound<K::V>),
    b: (Bound<K::V>, Bound<K::V>),
    k: K::V,
)
    requires
        in_range::<K>(a, k),
        in_range::<K>(b, k),
    ensures
        overlap_spec::<K>(a, b),
{
    let lo = max_lower::<K>(a.0, b.0);
    let hi = min_upper::<K>(a.1, b.1);
    assert(lo == a.0 || lo == b.0);
    assert(hi == a.1 || hi == b.1);
    assert(above_lower::<K>(lo, k));
    assert(below_upper::<K>(hi, k));
    match lo {
        Bound::Included(l) => match hi {
            Bound::Included(u) => {
                if l != k && k != u {
                    K::lemma_transitive(l, k, u);
                }
            },
            Bound::Excluded(u) => lemma_le_lt::<K>(l, k, u),
            Bound::Unbounded => {},
        },
        Bound::Excluded(l) => match hi {
            Bound::Included(u) => lemma_lt_le::<K>(l, k, u),
            Bound::Excluded(u) => K::lemma_transitive(l, k, u),
            Bound::Unbounded => {},
        },
        Bound::Unbounded => {},
    }
}

/// The tighter of two lower ends, as `max_lower` states it.
fn tighter_lower<'a, K: IndexKey>(a: &'a Bound<K>, b: &'a Bound<K>) -> (r: &'a Bound<K>)
    ensures
        r@ == max_lower::<K>(a@, b@),
{
    match a {
        Bound::Unbounded => b,
        Bound::Included(x) => match b {
            Bound::Unbounded => a,
            Bound::Included(y) => if y.key_lt(x) { a } else { b },
            Bound::Excluded(y) => if y.key_lt(x) { a } else { b },
        },
        Bound::Excluded(x) => match b {
            Bound::Unbounded => a,
            Bound::Included(y) => if x.key_lt(y) { b } else { a },
            Bound::Excluded(y) => if y.key_lt(x) { a } else { b },
        },
    }
}

/// The tighter of two upper ends, as `min_upper` states it.
fn tighter_upper<'a, K: IndexKey>(a: &'a Bound<K>, b: &'a Bound<K>) -> (r: &'a Bound<K>)
    ensures
        r@ == min_upper::<K>(a@, b@),
{
    match a {
        Bound::Unbounded => b,
        Bound::Included(x) => match b {
            Bound::Unbounded => a,
            Bound::Included(y) => if y.key_lt(x) { b } else { a },
            Bound::Excluded(y) => if x.key_lt(y) { a } else { b },
        },
        Bound::Excluded(x) => match b {
            Bound::Unbounded => a,
            Bound::Included(y) => if y.key_lt(x) { b } else { a },
            Bound::Excluded(y) => if y.key_lt(x) { b } else { a },
        },
    }
}

/// Whether `k` lies in the range `r`.
pub fn range_contains<K: IndexKey>(r: &Range<K>, k: &K) -> (b: bool)
    ensures
        b == in_range::<K>(range_view(*r), k@),
{
    let above = match &r.0 {
        Bound::Unbounded => true,
        Bound::Included(l) => l.key_eq(k) || l.key_lt(k),
        Bound::Excluded(l) => l.key_lt(k),
    };
    let below = match &r.1 {
        Bound::Unbounded => true,
        Bound::Included(u) => k.key_eq(u) || k.key_lt(u),
        Bound::Excluded(u) => k.key_lt(u),
    };
    above && below
}

/// Whether two ranges overlap: the tighter lower end and the tighter upper
/// end leave room between them.
pub fn ranges_overlap<K: IndexKey>(b1: &Range<K>, b2: &Range<K>) -> (r: bool)
    ensures
        r == overlap_spec::<K>(range_view(*b1), range_view(*b2)),
{
    let lower = tighter_lower(&b1.0, &b2.0);
    let upper = tighter_upper(&b1.1, &b2.1);
    match lower {
        Bound::Unbounded => true,
        Bound::Included(l) => match upper {
            Bound::Unbounded => true,
            Bound::Included(u) => l.key_eq(u) || l.key_lt(u),
            Bound::Excluded(u) => l.key_lt(u),
        },
        Bound::Excluded(l) => match upper {
            Bound::Unbounded => true,
            Bound::Included(u) => l.key_lt(u),
            Bound::Excluded(u) => l.key_lt(u),
        },
    }
}

} // verus!
