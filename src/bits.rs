//! Leading-zero count on the two's-complement pattern of an `i32`.
use vstd::prelude::*;
use vstd::std_specs::bits::axiom_u32_leading_zeros;

verus! {

/// Position of the highest set bit of `x`, counted from bit 0; zero for `x <= 1`.
pub open spec fn highest_set_bit(x: u32) -> nat
    decreases x,
{
    if x <= 1 {
        0
    } else {
        1 + highest_set_bit(x / 2)
    }
}

/// Number of zero bits above the highest set bit of the 32-bit pattern of `n`.
pub open spec fn leading_zeros_of(n: i32) -> nat {
    if n == 0 {
        32
    } else {
        (31 - highest_set_bit(n as u32)) as nat
    }
}

/// When `x >> h` is exactly one, bit `h` is the highest set bit of `x`.
proof fn lemma_highest_set_bit_from_shift(x: u32, h: u32)
    requires
        h < 32,
        x >> h == 1u32,
    ensures
        highest_set_bit(x) == h,
    decreases h,
{
    if h == 0 {
        assert(x >> 0u32 == x) by (bit_vector);
    } else {
        assert(x >> h == 1u32 && 0 < h < 32 ==> x >= 2 && (x / 2) >> ((h - 1) as u32) == 1u32)
            by (bit_vector);
        lemma_highest_set_bit_from_shift(x / 2, (h - 1) as u32);
    }
}

/// Counts the zero bits of `n`'s two's-complement pattern that precede the
/// first set bit, from the most significant end; 32 when `n` is zero.
pub fn leading_zero_count(n: i32) -> (r: u32)
    ensures
        r == leading_zeros_of(n),
        r <= 32,
        n == 0 <==> r == 32,
        n != 0 ==> r == 31 - highest_set_bit(n as u32),
        n < 0 ==> r == 0,
{
    let x = n as u32;
    let r = x.leading_zeros();
    proof {
        axiom_u32_leading_zeros(x);
        if x != 0 {
            let s = (31 - r) as u32;
            assert(s < 32 && (x >> s) & 1u32 != 0u32 && x >> ((s + 1) as u32) == 0u32
                ==> x >> s == 1u32) by (bit_vector);
            assert(x >> (32 - r) as u32 == x >> ((s + 1) as u32));
            lemma_highest_set_bit_from_shift(x, s);
        }
        if n < 0 {
            assert(n < 0 ==> (n as u32) >> 31u32 == 1u32) by (bit_vector);
            lemma_highest_set_bit_from_shift(x, 31);
        }
    }
    r
}

} // verus!
