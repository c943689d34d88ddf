//! Text helpers: case folding of names and decimal integers in bytes.

use vstd::prelude::*;
use vstd::string::StringSliceAdditionalSpecFns;

verus! {

/// The bytes of the upper-case form of the string whose bytes are `s`.
pub uninterp spec fn upper_of(s: Seq<u8>) -> Seq<u8>;

/// Relies on `str::to_uppercase`: the result depends on the string alone.
#[verifier::external_body]
pub(crate) fn to_upper(s: &str) -> (r: Vec<u8>)
    ensures
        r@ == upper_of(s.spec_bytes()),
{
    s.to_uppercase().into_bytes()
}

/// A copy of `s`.
pub fn bytes_to_vec(s: &[u8]) -> (r: Vec<u8>)
    ensures
        r@ == s@,
{
    let mut r: Vec<u8> = Vec::with_capacity(s.len());
    let mut i: usize = 0;
    while i < s.len()
        invariant
            0 <= i <= s@.len(),
            r@ == s@.take(i as int),
        decreases s@.len() - i,
    {
        r.push(s[i]);
        i = i + 1;
        proof {
            assert(r@ =~= s@.take(i as int));
        }
    }
    proof {
        assert(s@.take(s@.len() as int) =~= s@);
    }
    r
}

/// The value of a string of decimal digits.
pub open spec fn digits_value(s: Seq<u8>) -> int
    decreases s.len(),
{
    if s.len() == 0 {
        0
    } else {
        digits_value(s.drop_last()) * 10 + (s.last() as int - 48)
    }
}

/// Every byte of `s` is an ASCII digit.
pub open spec fn all_digits(s: Seq<u8>) -> bool {
    forall|i: int| 0 <= i < s.len() ==> 48 <= #[trigger] s[i] <= 57
}

/// `s` with a leading sign byte (`+` or `-`) taken off.
pub open spec fn unsigned_part(s: Seq<u8>) -> Seq<u8> {
    if s.len() > 0 && (s[0] == 43 || s[0] == 45) {
        s.drop_first()
    } else {
        s
    }
}

/// The signed decimal integer written in `s`: an optional `+` or `-`, then
/// one or more ASCII digits, and nothing else; `None` when `s` is not of that
/// form or its value does not fit in 64 signed bits.
pub open spec fn decimal_i64(s: Seq<u8>) -> Option<i64> {
    let body = unsigned_part(s);
    let v = if s.len() > 0 && s[0] == 45 {
        -digits_value(body)
    } else {
        digits_value(body)
    };
    if body.len() == 0 || !all_digits(body) {
        None
    } else if i64::MIN <= v <= i64::MAX {
        Some(v as i64)
    } else {
        None
    }
}

proof fn lemma_digits_nonneg(s: Seq<u8>)
    requires
        all_digits(s),
    ensures
        digits_value(s) >= 0,
    decreases s.len(),
{
    if s.len() > 0 {
        lemma_digits_nonneg(s.drop_last());
    }
}

/// Reads a signed decimal integer from the bytes of a field.
pub fn parse_i64(b: &[u8]) -> (r: Option<i64>)
    ensures
        r == decimal_i64(b@),
{
    let n = b.len();
    let neg = n > 0 && b[0] == 45u8;
    let start: usize = if n > 0 && (b[0] == 43u8 || b[0] == 45u8) { 1 } else { 0 };
    let ghost body = unsigned_part(b@);
    proof {
        assert(body =~= b@.subrange(start as int, n as int));
    }
    if start == n {
        return None;
    }
    let cap: u128 = 0x8000_0000_0000_0001u128;
    let mut acc: u128 = 0;
    let mut j: usize = start;
    proof {
        assert(body.take(0) =~= Seq::<u8>::empty());
    }
    while j < n
        invariant
            start <= j <= n,
            n == b@.len(),
            body == b@.subrange(start as int, n as int),
            body == unsigned_part(b@),
            neg == (b@.len() > 0 && b@[0] == 45),
            all_digits(body.take(j - start)),
            cap == 0x8000_0000_0000_0001u128,
            acc <= cap,
            acc as int == if digits_value(body.take(j - start)) < cap as int {
                digits_value(body.take(j - start))
            } else {
                cap as int
            },
        decreases n - j,
    {
        let d = b[j];
        if d < 48u8 || d > 57u8 {
            proof {
                assert(body[j - start] == d);
                assert(!all_digits(body));
            }
            return None;
        }
        let ghost pre = body.take(j - start);
        let ghost next = body.take(j - start + 1);
        proof {
            assert(next.drop_last() =~= pre);
            assert(next.last() == d);
            assert(all_digits(next));
            lemma_digits_nonneg(pre);
        }
        if acc < cap {
            proof {
                assert(acc * 10 + 9 < 0x1_0000_0000_0000_0000_0000u128) by (nonlinear_arith)
                    requires acc < 0x8000_0000_0000_0001u128;
            }
            let t = acc * 10 + (d - 48u8) as u128;
            acc = if t < cap { t } else { cap };
        } else {
            proof {
                assert(digits_value(next) >= cap as int) by (nonlinear_arith)
                    requires
                        digits_value(next) == digits_value(pre) * 10 + (d as int - 48),
                        digits_value(pre) >= cap as int,
                        d >= 48,
                ;
            }
        }
        j = j + 1;
    }
    proof {
        assert(body.take(n - start) =~= body);
        assert(all_digits(body));
        assert(body.len() > 0);
        lemma_digits_nonneg(body);
    }
    if neg {
        if acc <= 0x8000_0000_0000_0000u128 {
            proof {
                assert(-(acc as int) >= i64::MIN);
            }
            Some((0i128 - acc as i128) as i64)
        } else {
            None
        }
    } else {
        if acc <= 0x7fff_ffff_ffff_ffffu128 {
            Some(acc as i64)
        } else {
            None
        }
    }
}

} // verus!
