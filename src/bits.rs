//! Big-endian codec of the 8-byte length prefix of an index file.

use vstd::prelude::*;

verus! {

/// The value of eight bytes read most significant first.
pub open spec fn be_value(b: Seq<u8>) -> int
    recommends
        b.len() == 8,
{
    ((((((b[0] as int * 256 + b[1] as int) * 256 + b[2] as int) * 256 + b[3] as int) * 256
        + b[4] as int) * 256 + b[5] as int) * 256 + b[6] as int) * 256 + b[7] as int
}

/// Byte `i` (0 = most significant) of the big-endian form of `x`.
pub open spec fn be_byte(x: u64, i: int) -> u8 {
    ((x >> ((7 - i) * 8) as u64) & 0xff) as u8
}

/// The eight bytes of `x`, most significant first.
pub open spec fn be_bytes(x: u64) -> Seq<u8> {
    Seq::new(8, |i: int| be_byte(x, i))
}

proof fn lemma_be_bytes_value(x: u64)
    ensures
        be_value(be_bytes(x)) == x as int,
{
    let b = be_bytes(x);
    let b1 = be_byte(x, 0);
    let b2 = be_byte(x, 1);
    let b3 = be_byte(x, 2);
    let b4 = be_byte(x, 3);
    let b5 = be_byte(x, 4);
    let b6 = be_byte(x, 5);
    let b7 = be_byte(x, 6);
    let b8 = be_byte(x, 7);
    assert(x == (b1 as u64) * 0x100000000000000u64 + (b2 as u64) * 0x1000000000000u64 + (
    b3 as u64) * 0x10000000000u64 + (b4 as u64) * 0x100000000u64 + (b5 as u64) * 0x1000000u64
        + (b6 as u64) * 0x10000u64 + (b7 as u64) * 0x100u64 + (b8 as u64)) by (bit_vector)
        requires
            b1 == ((x >> 56u64) & 0xff) as u8,
            b2 == ((x >> 48u64) & 0xff) as u8,
            b3 == ((x >> 40u64) & 0xff) as u8,
            b4 == ((x >> 32u64) & 0xff) as u8,
            b5 == ((x >> 24u64) & 0xff) as u8,
            b6 == ((x >> 16u64) & 0xff) as u8,
            b7 == ((x >> 8u64) & 0xff) as u8,
            b8 == ((x >> 0u64) & 0xff) as u8,
    ;
    assert(be_value(b) == x as int) by (nonlinear_arith)
        requires
            b[0] == b1, b[1] == b2, b[2] == b3, b[3] == b4,
            b[4] == b5, b[5] == b6, b[6] == b7, b[7] == b8,
            x as int == (b1 as int) * 0x100000000000000 + (b2 as int) * 0x1000000000000 + (
            b3 as int) * 0x10000000000 + (b4 as int) * 0x100000000 + (b5 as int) * 0x1000000
                + (b6 as int) * 0x10000 + (b7 as int) * 0x100 + (b8 as int),
    ;
}

/// Encodes `x` as eight bytes, most significant first.
pub fn u64_to_u8s(x: u64) -> (r: [u8; 8])
    ensures
        r@ == be_bytes(x),
        be_value(r@) == x as int,
{
    let b1: u8 = ((x >> 56u64) & 0xff) as u8;
    let b2: u8 = ((x >> 48u64) & 0xff) as u8;
    let b3: u8 = ((x >> 40u64) & 0xff) as u8;
    let b4: u8 = ((x >> 32u64) & 0xff) as u8;
    let b5: u8 = ((x >> 24u64) & 0xff) as u8;
    let b6: u8 = ((x >> 16u64) & 0xff) as u8;
    let b7: u8 = ((x >> 8u64) & 0xff) as u8;
    let b8: u8 = (x & 0xff) as u8;
    let r = [b1, b2, b3, b4, b5, b6, b7, b8];
    proof {
        assert(b8 == ((x >> 0u64) & 0xff) as u8) by (bit_vector)
            requires
                b8 == (x & 0xff) as u8,
        ;
        assert(r@ =~= be_bytes(x));
        lemma_be_bytes_value(x);
    }
    r
}

/// Decodes eight bytes, most significant first.
pub fn u8s_to_u64(xs: [u8; 8]) -> (r: u64)
    ensures
        r as int == be_value(xs@),
{
    let mut acc: u64 = 0;
    let mut i: usize = 0;
    while i < 8
        invariant
            0 <= i <= 8,
            acc as int == be_prefix(xs@, i as int),
            acc as int <= pow256(i as int) - 1,
        decreases 8 - i,
    {
        proof {
            lemma_pow256_step(i as int);
            assert(acc as int * 256 + xs@[i as int] as int <= pow256(i as int + 1) - 1)
                by (nonlinear_arith)
                requires
                    acc as int <= pow256(i as int) - 1,
                    xs@[i as int] as int <= 255,
                    pow256(i as int + 1) == pow256(i as int) * 256,
            ;
            lemma_pow256_bound(i as int + 1);
        }
        acc = acc * 256 + xs[i] as u64;
        i = i + 1;
    }
    proof {
        reveal_with_fuel(be_prefix, 9);
    }
    acc
}

/// The value of the first `n` bytes of `b`, most significant first.
pub open spec fn be_prefix(b: Seq<u8>, n: int) -> int
    decreases n,
{
    if n <= 0 {
        0
    } else {
        be_prefix(b, n - 1) * 256 + b[n - 1] as int
    }
}

pub open spec fn pow256(n: int) -> int
    decreases n,
{
    if n <= 0 {
        1
    } else {
        pow256(n - 1) * 256
    }
}

proof fn lemma_pow256_step(n: int)
    requires
        n >= 0,
    ensures
        pow256(n + 1) == pow256(n) * 256,
{
}

proof fn lemma_pow256_bound(n: int)
    requires
        0 <= n <= 8,
    ensures
        pow256(n) <= 0x1_0000_0000_0000_0000,
{
    reveal_with_fuel(pow256, 9);
}

/// Decoding the encoding of any 64-bit value gives the value back: the
/// decoder's result on the encoder's bytes is `x` itself.
pub proof fn lemma_round_trip(x: u64)
    ensures
        be_value(be_bytes(x)) == x as int,
{
    lemma_be_bytes_value(x);
}

} // verus!
