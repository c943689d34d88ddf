//! Relational predicates on a column and the key ranges they select.

use vstd::prelude::*;
use vstd::string::StringSliceAdditionalSpecFns;

use crate::csv_index::{float_field_key, int_key};
use crate::key::{float_key, total_order_key, IndexKey, INFINITY_BITS, NEG_INFINITY_BITS};
use crate::range::{Bound, Range};
use crate::text::{bytes_to_vec, parse_i64, to_upper, upper_of};

verus! {

/// A relational operator of a query.
#[derive(Clone, Copy, Debug, PartialEq, Eq, Structural)]
pub enum Operator {
    EQ,
    LT,
    LE,
    GT,
    GE,
    IN,
    PRE,
}

/// The operator whose upper-case name is `u`, if any.
pub open spec fn operator_named(u: Seq<u8>) -> Option<Operator> {
    if u == seq![76u8, 84u8] {
        Some(Operator::LT)
    } else if u == seq![76u8, 69u8] {
        Some(Operator::LE)
    } else if u == seq![69u8, 81u8] {
        Some(Operator::EQ)
    } else if u == seq![71u8, 69u8] {
        Some(Operator::GE)
    } else if u == seq![71u8, 84u8] {
        Some(Operator::GT)
    } else if u == seq![73u8, 78u8] {
        Some(Operator::IN)
    } else if u == seq![80u8, 82u8, 69u8] {
        Some(Operator::PRE)
    } else {
        None
    }
}

/// The smallest byte string above every string that starts with `v`: `v`
/// with its trailing 0xFF bytes dropped and its last byte raised by one;
/// none when `v` holds only 0xFF bytes.
pub open spec fn prefix_successor(v: Seq<u8>) -> Option<Seq<u8>>
    decreases v.len(),
{
    if v.len() == 0 {
        None
    } else if v.last() == 255 {
        prefix_successor(v.drop_last())
    } else {
        Some(v.drop_last().push((v.last() + 1) as u8))
    }
}

/// The upper end of the range of a prefix query on `v`.
pub open spec fn prefix_upper(v: Seq<u8>) -> Bound<Seq<u8>> {
    match prefix_successor(v) {
        Some(u) => Bound::Excluded(u),
        None => Bound::Unbounded,
    }
}

/// The upper end of the range of a prefix query on `v`: excluded at the
/// smallest string above all those that start with `v`.
pub fn prefix_upper_bound(v: &Vec<u8>) -> (r: Bound<Vec<u8>>)
    ensures
        r@ == prefix_upper(v@),
{
    let mut j: usize = v.len();
    proof {
        assert(v@.take(j as int) =~= v@);
    }
    while j > 0 && v[j - 1] == 255u8
        invariant
            j <= v@.len(),
            prefix_successor(v@) == prefix_successor(v@.take(j as int)),
        decreases j,
    {
        proof {
            assert(v@.take(j as int).drop_last() =~= v@.take(j - 1));
        }
        j = j - 1;
    }
    if j == 0 {
        return Bound::Unbounded;
    }
    let mut out: Vec<u8> = Vec::with_capacity(j);
    let mut i: usize = 0;
    while i + 1 < j
        invariant
            i < j <= v@.len(),
            out@ == v@.take(i as int),
        decreases j - i,
    {
        out.push(v[i]);
        i = i + 1;
        proof {
            assert(out@ =~= v@.take(i as int));
        }
    }
    out.push(v[j - 1] + 1);
    proof {
        let t = v@.take(j as int);
        assert(t.last() == v@[j - 1]);
        assert(t.drop_last() =~= v@.take(j - 1));
        assert(out@ =~= t.drop_last().push((t.last() + 1) as u8));
    }
    Bound::Excluded(out)
}

/// The byte-string range that `op` selects for the values `v` and `v2`.
pub open spec fn string_bounds_spec(op: Operator, v: Seq<u8>, v2: Seq<u8>) -> (
    Bound<Seq<u8>>,
    Bound<Seq<u8>>,
) {
    match op {
        Operator::EQ => (Bound::Included(v), Bound::Included(v)),
        Operator::LE => (Bound::Unbounded, Bound::Included(v)),
        Operator::LT => (Bound::Unbounded, Bound::Excluded(v)),
        Operator::GT => (Bound::Excluded(v), Bound::Unbounded),
        Operator::GE => (Bound::Included(v), Bound::Unbounded),
        Operator::IN => (Bound::Included(v), Bound::Included(v2)),
        Operator::PRE => (Bound::Included(v), prefix_upper(v)),
    }
}

/// The range of keys of type `K` that `op` selects for the keys `v` and
/// `v2`, where `lo` and `hi` are the sentinels that the ordering operators
/// exclude; a prefix query has none.
pub open spec fn numeric_bounds_spec<T>(op: Operator, v: T, v2: T, lo: T, hi: T) -> Option<
    (Bound<T>, Bound<T>),
> {
    match op {
        Operator::EQ => Some((Bound::Included(v), Bound::Included(v))),
        Operator::LE => Some((Bound::Excluded(lo), Bound::Included(v))),
        Operator::LT => Some((Bound::Excluded(lo), Bound::Excluded(v))),
        Operator::GT => Some((Bound::Excluded(v), Bound::Excluded(hi))),
        Operator::GE => Some((Bound::Included(v), Bound::Excluded(hi))),
        Operator::IN => Some((Bound::Included(v), Bound::Included(v2))),
        Operator::PRE => None,
    }
}

impl Operator {
    /// The operator named `name` in upper case.
    pub fn from_upper_name(name: &Vec<u8>) -> (r: Result<Self, &'static str>)
        ensures
            match r {
                Ok(o) => operator_named(name@) == Some(o),
                Err(_) => operator_named(name@) is None,
            },
    {
        if name.key_eq(&vec![76u8, 84u8]) {
            Ok(Operator::LT)
        } else if name.key_eq(&vec![76u8, 69u8]) {
            Ok(Operator::LE)
        } else if name.key_eq(&vec![69u8, 81u8]) {
            Ok(Operator::EQ)
        } else if name.key_eq(&vec![71u8, 69u8]) {
            Ok(Operator::GE)
        } else if name.key_eq(&vec![71u8, 84u8]) {
            Ok(Operator::GT)
        } else if name.key_eq(&vec![73u8, 78u8]) {
            Ok(Operator::IN)
        } else if name.key_eq(&vec![80u8, 82u8, 69u8]) {
            Ok(Operator::PRE)
        } else {
            Err("Unknown operator")
        }
    }

    /// The operator named `op`, in any case: `eq`, `lt`, `le`, `gt`, `ge`,
    /// `in` or `pre`.
    pub fn from(op: &str) -> (r: Result<Self, &'static str>)
        ensures
            match r {
                Ok(o) => operator_named(upper_of(op.spec_bytes())) == Some(o),
                Err(_) => operator_named(upper_of(op.spec_bytes())) is None,
            },
    {
        let name = to_upper(op);
        Self::from_upper_name(&name)
    }
}

/// A query: an operator, its value (and second value, for `in`), and the
/// zero-based column it applies to.
pub struct Filter<'a> {
    op: Operator,
    value: &'a str,
    value2: &'a str,
    column: usize,
}

impl<'a> Filter<'a> {
    pub closed spec fn spec_op(&self) -> Operator {
        self.op
    }

    pub closed spec fn spec_value(&self) -> Seq<u8> {
        self.value.spec_bytes()
    }

    pub closed spec fn spec_value2(&self) -> Seq<u8> {
        self.value2.spec_bytes()
    }

    pub closed spec fn spec_column(&self) -> usize {
        self.column
    }

    /// A query of `op` on `value` (and `value2`) in column `column`.
    pub fn from(op: Operator, value: &'a str, value2: &'a str, column: usize) -> (r: Self)
        ensures
            r.spec_op() == op,
            r.spec_value() == value.spec_bytes(),
            r.spec_value2() == value2.spec_bytes(),
            r.spec_column() == column,
    {
        Filter { op, value, value2, column }
    }

    /// The operator.
    pub fn op(&self) -> (r: Operator)
        ensures
            r == self.spec_op(),
    {
        self.op
    }

    /// The zero-based column.
    pub fn column(&self) -> (r: usize)
        ensures
            r == self.spec_column(),
    {
        self.column
    }

    /// The first value.
    pub fn value(&self) -> (r: &'a str)
        ensures
            r.spec_bytes() == self.spec_value(),
    {
        self.value
    }

    /// The second value.
    pub fn value2(&self) -> (r: &'a str)
        ensures
            r.spec_bytes() == self.spec_value2(),
    {
        self.value2
    }

    /// The range of byte-string keys that this query selects.
    pub fn string_bounds(&self) -> (r: Range<Vec<u8>>)
        ensures
            (r.0@, r.1@) == string_bounds_spec(self.spec_op(), self.spec_value(), self.spec_value2()),
    {
        let v = bytes_to_vec(self.value.as_bytes());
        match self.op {
            Operator::EQ => (Bound::Included(v.key_clone()), Bound::Included(v)),
            Operator::LE => (Bound::Unbounded, Bound::Included(v)),
            Operator::LT => (Bound::Unbounded, Bound::Excluded(v)),
            Operator::GT => (Bound::Excluded(v), Bound::Unbounded),
            Operator::GE => (Bound::Included(v), Bound::Unbounded),
            Operator::IN => (Bound::Included(v), Bound::Included(bytes_to_vec(self.value2.as_bytes()))),
            Operator::PRE => {
                let upper = prefix_upper_bound(&v);
                (Bound::Included(v), upper)
            },
        }
    }

    /// The range of integer keys that this query selects: a value that is
    /// not a decimal integer stands for `i64::MIN`, and the ordering
    /// operators exclude `i64::MIN` and `i64::MAX`. A prefix query has no
    /// integer range: callers must refuse it as a user error first.
    pub fn int_bounds(&self) -> (r: Range<i64>)
        requires
            self.spec_op() != Operator::PRE,
        ensures
            numeric_bounds_spec(
                self.spec_op(),
                int_key(self.spec_value()),
                int_key(self.spec_value2()),
                i64::MIN,
                i64::MAX,
            ) == Some(r),
    {
        let value = match parse_i64(self.value.as_bytes()) {
            Some(v) => v,
            None => i64::MIN,
        };
        match self.op {
            Operator::EQ => (Bound::Included(value), Bound::Included(value)),
            Operator::LE => (Bound::Excluded(i64::MIN), Bound::Included(value)),
            Operator::LT => (Bound::Excluded(i64::MIN), Bound::Excluded(value)),
            Operator::GT => (Bound::Excluded(value), Bound::Excluded(i64::MAX)),
            Operator::GE => (Bound::Included(value), Bound::Excluded(i64::MAX)),
            Operator::IN => {
                let value2 = match parse_i64(self.value2.as_bytes()) {
                    Some(v) => v,
                    None => i64::MIN,
                };
                (Bound::Included(value), Bound::Included(value2))
            },
            Operator::PRE => (Bound::Unbounded, Bound::Unbounded),
        }
    }

    /// The range of float keys that this query selects, given the bit
    /// patterns that its values parsed to (`None`: it did not parse, and
    /// stands for negative infinity); the ordering operators exclude both
    /// infinities. A prefix query has no float range: callers must refuse it
    /// as a user error first.
    pub fn float_bounds(&self, value_bits: Option<u64>, value2_bits: Option<u64>) -> (r: Range<u64>)
        requires
            self.spec_op() != Operator::PRE,
        ensures
            numeric_bounds_spec(
                self.spec_op(),
                float_field_key(value_bits),
                float_field_key(value2_bits),
                total_order_key(NEG_INFINITY_BITS),
                total_order_key(INFINITY_BITS),
            ) == Some(r),
    {
        let value = match value_bits {
            Some(b) => float_key(b),
            None => float_key(NEG_INFINITY_BITS),
        };
        let lower = float_key(NEG_INFINITY_BITS);
        let upper = float_key(INFINITY_BITS);
        match self.op {
            Operator::EQ => (Bound::Included(value), Bound::Included(value)),
            Operator::LE => (Bound::Excluded(lower), Bound::Included(value)),
            Operator::LT => (Bound::Excluded(lower), Bound::Excluded(value)),
            Operator::GT => (Bound::Excluded(value), Bound::Excluded(upper)),
            Operator::GE => (Bound::Included(value), Bound::Excluded(upper)),
            Operator::IN => {
                let value2 = match value2_bits {
                    Some(b) => float_key(b),
                    None => float_key(NEG_INFINITY_BITS),
                };
                (Bound::Included(value), Bound::Included(value2))
            },
            Operator::PRE => (Bound::Unbounded, Bound::Unbounded),
        }
    }
}

} // verus!
