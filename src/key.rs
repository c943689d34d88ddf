//! Keys of an index: a strict total order on their views, with executable
//! comparisons, for byte strings, signed and unsigned integers.

use vstd::prelude::*;

verus! {

/// A key type of a sorted posting map: `lt_spec` is a strict total order on
/// the key's view, and the executable comparisons follow it.
pub trait IndexKey: View + Sized {
    spec fn lt_spec(a: Self::V, b: Self::V) -> bool;

    proof fn lemma_irreflexive(a: Self::V)
        ensures
            !Self::lt_spec(a, a),
    ;

    proof fn lemma_transitive(a: Self::V, b: Self::V, c: Self::V)
        requires
            Self::lt_spec(a, b),
            Self::lt_spec(b, c),
        ensures
            Self::lt_spec(a, c),
    ;

    proof fn lemma_total(a: Self::V, b: Self::V)
        ensures
            a == b || Self::lt_spec(a, b) || Self::lt_spec(b, a),
    ;

    fn key_lt(&self, other: &Self) -> (r: bool)
        ensures
            r == Self::lt_spec(self@, other@),
    ;

    fn key_eq(&self, other: &Self) -> (r: bool)
        ensures
            r == (self@ == other@),
    ;

    fn key_clone(&self) -> (r: Self)
        ensures
            r@ == self@,
    ;
}

/// `a` is before or equal to `b`.
pub open spec fn key_le<K: IndexKey>(a: K::V, b: K::V) -> bool {
    a == b || K::lt_spec(a, b)
}

/// Lexicographic order on byte strings: a proper prefix comes first.
pub open spec fn lex_lt(a: Seq<u8>, b: Seq<u8>) -> bool
    decreases a.len(),
{
    if b.len() == 0 {
        false
    } else if a.len() == 0 {
        true
    } else if a[0] != b[0] {
        a[0] < b[0]
    } else {
        lex_lt(a.drop_first(), b.drop_first())
    }
}

proof fn lemma_lex_irreflexive(a: Seq<u8>)
    ensures
        !lex_lt(a, a),
    decreases a.len(),
{
    if a.len() > 0 {
        lemma_lex_irreflexive(a.drop_first());
    }
}

proof fn lemma_lex_transitive(a: Seq<u8>, b: Seq<u8>, c: Seq<u8>)
    requires
        lex_lt(a, b),
        lex_lt(b, c),
    ensures
        lex_lt(a, c),
    decreases a.len(),
{
    if a.len() > 0 && b.len() > 0 && c.len() > 0 && a[0] == b[0] && b[0] == c[0] {
        lemma_lex_transitive(a.drop_first(), b.drop_first(), c.drop_first());
    }
}

proof fn lemma_lex_total(a: Seq<u8>, b: Seq<u8>)
    ensures
        a == b || lex_lt(a, b) || lex_lt(b, a),
    decreases a.len(),
{
    if a.len() > 0 && b.len() > 0 && a[0] == b[0] {
        lemma_lex_total(a.drop_first(), b.drop_first());
        if a.drop_first() == b.drop_first() {
            assert(a =~= seq![a[0]] + a.drop_first());
            assert(b =~= seq![b[0]] + b.drop_first());
        }
    } else if a.len() == 0 && b.len() == 0 {
        assert(a =~= b);
    }
}

proof fn lemma_lex_skip(a: Seq<u8>, b: Seq<u8>, i: int)
    requires
        0 <= i < a.len(),
        i < b.len(),
        a[i] == b[i],
    ensures
        lex_lt(a.skip(i), b.skip(i)) == lex_lt(a.skip(i + 1), b.skip(i + 1)),
{
    assert(a.skip(i).drop_first() =~= a.skip(i + 1));
    assert(b.skip(i).drop_first() =~= b.skip(i + 1));
}

impl IndexKey for Vec<u8> {
    open spec fn lt_spec(a: Seq<u8>, b: Seq<u8>) -> bool {
        lex_lt(a, b)
    }

    proof fn lemma_irreflexive(a: Seq<u8>) {
        lemma_lex_irreflexive(a);
    }

    proof fn lemma_transitive(a: Seq<u8>, b: Seq<u8>, c: Seq<u8>) {
        lemma_lex_transitive(a, b, c);
    }

    proof fn lemma_total(a: Seq<u8>, b: Seq<u8>) {
        lemma_lex_total(a, b);
    }

    fn key_lt(&self, other: &Self) -> (r: bool) {
        let mut i: usize = 0;
        proof {
            assert(self@.skip(0) =~= self@);
            assert(other@.skip(0) =~= other@);
        }
        while i < self.len() && i < other.len()
            invariant
                0 <= i <= self@.len(),
                i <= other@.len(),
                lex_lt(self@, other@) == lex_lt(self@.skip(i as int), other@.skip(i as int)),
            decreases self@.len() - i,
        {
            if self[i] != other[i] {
                return self[i] < other[i];
            }
            proof {
                lemma_lex_skip(self@, other@, i as int);
            }
            i = i + 1;
        }
        i < other.len()
    }

    fn key_eq(&self, other: &Self) -> (r: bool) {
        if self.len() != other.len() {
            return false;
        }
        let mut i: usize = 0;
        while i < self.len()
            invariant
                0 <= i <= self@.len(),
                self@.len() == other@.len(),
                forall|j: int| 0 <= j < i ==> self@[j] == other@[j],
            decreases self@.len() - i,
        {
            if self[i] != other[i] {
                return false;
            }
            i = i + 1;
        }
        proof {
            assert(self@ =~= other@);
        }
        true
    }

    fn key_clone(&self) -> (r: Self) {
        let mut r: Vec<u8> = Vec::with_capacity(self.len());
        let mut i: usize = 0;
        while i < self.len()
            invariant
                0 <= i <= self@.len(),
                r@ == self@.take(i as int),
            decreases self@.len() - i,
        {
            r.push(self[i]);
            i = i + 1;
            proof {
                assert(r@ =~= self@.take(i as int));
            }
        }
        proof {
            assert(self@.take(self@.len() as int) =~= self@);
        }
        r
    }
}

impl IndexKey for i64 {
    open spec fn lt_spec(a: i64, b: i64) -> bool {
        a < b
    }

    proof fn lemma_irreflexive(a: i64) {
    }

    proof fn lemma_transitive(a: i64, b: i64, c: i64) {
    }

    proof fn lemma_total(a: i64, b: i64) {
    }

    fn key_lt(&self, other: &Self) -> (r: bool) {
        *self < *other
    }

    fn key_eq(&self, other: &Self) -> (r: bool) {
        *self == *other
    }

    fn key_clone(&self) -> (r: Self) {
        *self
    }
}

impl IndexKey for u64 {
    open spec fn lt_spec(a: u64, b: u64) -> bool {
        a < b
    }

    proof fn lemma_irreflexive(a: u64) {
    }

    proof fn lemma_transitive(a: u64, b: u64, c: u64) {
    }

    proof fn lemma_total(a: u64, b: u64) {
    }

    fn key_lt(&self, other: &Self) -> (r: bool) {
        *self < *other
    }

    fn key_eq(&self, other: &Self) -> (r: bool) {
        *self == *other
    }

    fn key_clone(&self) -> (r: Self) {
        *self
    }
}

impl IndexKey for i32 {
    open spec fn lt_spec(a: i32, b: i32) -> bool {
        a < b
    }

    proof fn lemma_irreflexive(a: i32) {
    }

    proof fn lemma_transitive(a: i32, b: i32, c: i32) {
    }

    proof fn lemma_total(a: i32, b: i32) {
    }

    fn key_lt(&self, other: &Self) -> (r: bool) {
        *self < *other
    }

    fn key_eq(&self, other: &Self) -> (r: bool) {
        *self == *other
    }

    fn key_clone(&self) -> (r: Self) {
        *self
    }
}

impl IndexKey for u8 {
    open spec fn lt_spec(a: u8, b: u8) -> bool {
        a < b
    }

    proof fn lemma_irreflexive(a: u8) {
    }

    proof fn lemma_transitive(a: u8, b: u8, c: u8) {
    }

    proof fn lemma_total(a: u8, b: u8) {
    }

    fn key_lt(&self, other: &Self) -> (r: bool) {
        *self < *other
    }

    fn key_eq(&self, other: &Self) -> (r: bool) {
        *self == *other
    }

    fn key_clone(&self) -> (r: Self) {
        *self
    }
}

/// The key under which a 64-bit float with bit pattern `bits` is filed: the
/// IEEE 754 total order of floats is the order of these keys (negative values
/// have their bits inverted, the others have the sign bit set).
pub open spec fn total_order_key(bits: u64) -> u64 {
    if bits >= 0x8000_0000_0000_0000 {
        (0xFFFF_FFFF_FFFF_FFFFu64 - bits) as u64
    } else {
        (bits + 0x8000_0000_0000_0000u64) as u64
    }
}

/// The bit pattern of negative infinity.
pub const NEG_INFINITY_BITS: u64 = 0xFFF0_0000_0000_0000;

/// The bit pattern of positive infinity.
pub const INFINITY_BITS: u64 = 0x7FF0_0000_0000_0000;

/// The key of a float given by its bit pattern, in the total order.
pub fn float_key(bits: u64) -> (r: u64)
    ensures
        r == total_order_key(bits),
{
    if bits >= 0x8000_0000_0000_0000u64 {
        0xFFFF_FFFF_FFFF_FFFFu64 - bits
    } else {
        bits + 0x8000_0000_0000_0000u64
    }
}

} // verus!
