//! Word-level helpers.
use vstd::arithmetic::div_mod::*;
use vstd::arithmetic::mul::*;
use vstd::prelude::*;

verus! {

/// The full 128-bit product of two 64-bit words, as (low word, high word),
/// computed from 32-bit halves.
pub fn mul_u64(a: u64, b: u64) -> (r: (u64, u64))
    ensures
        r.0 as nat + r.1 as nat * 0x1_0000_0000_0000_0000 == a as nat * b as nat,
{
    let a0 = a as u32 as u64;
    let a1 = a >> 32;
    let b0 = b as u32 as u64;
    let b1 = b >> 32;
    proof {
        lemma_halves(a);
        lemma_halves(b);
        lemma_half_products(a0, a1, b0, b1);
    }
    let p00 = a0 * b0;
    let p01 = a0 * b1;
    let p10 = a1 * b0;
    let p11 = a1 * b1;
    proof {
        lemma_halves(p00);
        lemma_halves(p01);
        lemma_halves(p10);
    }
    let middle = (p00 >> 32).wrapping_add(p01 as u32 as u64).wrapping_add(p10 as u32 as u64);
    proof {
        lemma_halves(middle);
        lemma_low_join(p00, middle);
    }
    let lo = (p00 & 0xffff_ffff) | (middle << 32);
    proof {
        lemma_mul_u64_high(a, b, a0, a1, b0, b1, p00, p01, p10, p11, middle, lo);
    }
    let hi = p11.wrapping_add(p01 >> 32).wrapping_add(p10 >> 32).wrapping_add(middle >> 32);
    (lo, hi)
}

/// A word split into 32-bit halves.
proof fn lemma_halves(x: u64)
    ensures
        (x as u32 as u64) == x % 0x1_0000_0000,
        x >> 32 == x / 0x1_0000_0000,
        x == (x >> 32) * 0x1_0000_0000 + (x as u32 as u64),
        (x as u32 as u64) < 0x1_0000_0000,
        x >> 32 < 0x1_0000_0000,
{
    assert((x as u32 as u64) == x % 0x1_0000_0000) by (bit_vector);
    assert(x >> 32 == x / 0x1_0000_0000) by (bit_vector);
    assert(x == (x >> 32) * 0x1_0000_0000 + (x as u32 as u64)) by (bit_vector);
}

proof fn lemma_half_products(a0: u64, a1: u64, b0: u64, b1: u64)
    requires
        a0 < 0x1_0000_0000,
        a1 < 0x1_0000_0000,
        b0 < 0x1_0000_0000,
        b1 < 0x1_0000_0000,
    ensures
        a0 * b0 <= 0xffff_fffe_0000_0001,
        a0 * b1 <= 0xffff_fffe_0000_0001,
        a1 * b0 <= 0xffff_fffe_0000_0001,
        a1 * b1 <= 0xffff_fffe_0000_0001,
{
    assert(a0 * b0 <= 0xffff_fffe_0000_0001) by (nonlinear_arith)
        requires
            a0 < 0x1_0000_0000,
            b0 < 0x1_0000_0000,
    ;
    assert(a0 * b1 <= 0xffff_fffe_0000_0001) by (nonlinear_arith)
        requires
            a0 < 0x1_0000_0000,
            b1 < 0x1_0000_0000,
    ;
    assert(a1 * b0 <= 0xffff_fffe_0000_0001) by (nonlinear_arith)
        requires
            a1 < 0x1_0000_0000,
            b0 < 0x1_0000_0000,
    ;
    assert(a1 * b1 <= 0xffff_fffe_0000_0001) by (nonlinear_arith)
        requires
            a1 < 0x1_0000_0000,
            b1 < 0x1_0000_0000,
    ;
}

/// The low 32 bits of `x` joined with the low 32 bits of `m` above them.
proof fn lemma_low_join(x: u64, m: u64)
    ensures
        (x & 0xffff_ffff) | (m << 32) == (x as u32 as u64) + (m as u32 as u64) * 0x1_0000_0000,
{
    assert((x & 0xffff_ffff) | (m << 32) == (x as u32 as u64) + (m as u32 as u64) * 0x1_0000_0000)
        by (bit_vector);
}

proof fn lemma_mul_u64_high(
    a: u64,
    b: u64,
    a0: u64,
    a1: u64,
    b0: u64,
    b1: u64,
    p00: u64,
    p01: u64,
    p10: u64,
    p11: u64,
    middle: u64,
    lo: u64,
)
    requires
        a == a1 * 0x1_0000_0000 + a0,
        b == b1 * 0x1_0000_0000 + b0,
        p00 == a0 * b0,
        p01 == a0 * b1,
        p10 == a1 * b0,
        p11 == a1 * b1,
        p00 == (p00 >> 32) * 0x1_0000_0000 + (p00 as u32 as u64),
        p01 == (p01 >> 32) * 0x1_0000_0000 + (p01 as u32 as u64),
        p10 == (p10 >> 32) * 0x1_0000_0000 + (p10 as u32 as u64),
        (p00 >> 32) < 0x1_0000_0000,
        (p01 as u32 as u64) < 0x1_0000_0000,
        (p10 as u32 as u64) < 0x1_0000_0000,
        middle == (p00 >> 32).wrapping_add(p01 as u32 as u64).wrapping_add(p10 as u32 as u64),
        middle == (middle >> 32) * 0x1_0000_0000 + (middle as u32 as u64),
        lo == (p00 as u32 as u64) + (middle as u32 as u64) * 0x1_0000_0000,
    ensures
        p11 + (p01 >> 32) <= u64::MAX,
        p11 + (p01 >> 32) + (p10 >> 32) <= u64::MAX,
        p11 + (p01 >> 32) + (p10 >> 32) + (middle >> 32) <= u64::MAX,
        lo as nat + (p11 + (p01 >> 32) + (p10 >> 32) + (middle >> 32)) as nat * 0x1_0000_0000_0000_0000
            == a as nat * b as nat,
{
    let k: int = 0x1_0000_0000;
    assert(middle as int == (p00 >> 32) as int + (p01 as u32 as u64) as int + (p10 as u32 as u64) as int);
    let h: int = p11 as int + (p01 >> 32) as int + (p10 >> 32) as int + (middle >> 32) as int;
    assert(a as int * b as int == (a1 as int * b1 as int) * (k * k) + (a0 as int * b1 as int
        + a1 as int * b0 as int) * k + a0 as int * b0 as int) by (nonlinear_arith)
        requires
            a as int == a1 as int * k + a0 as int,
            b as int == b1 as int * k + b0 as int,
    ;
    assert(a as int * b as int == h * (k * k) + lo as int) by (nonlinear_arith)
        requires
            a as int * b as int == p11 as int * (k * k) + (p01 as int + p10 as int) * k + p00 as int,
            p00 as int == (p00 >> 32) as int * k + (p00 as u32 as u64) as int,
            p01 as int == (p01 >> 32) as int * k + (p01 as u32 as u64) as int,
            p10 as int == (p10 >> 32) as int * k + (p10 as u32 as u64) as int,
            middle as int == (p00 >> 32) as int + (p01 as u32 as u64) as int + (p10 as u32
                as u64) as int,
            middle as int == (middle >> 32) as int * k + (middle as u32 as u64) as int,
            lo as int == (p00 as u32 as u64) as int + (middle as u32 as u64) as int * k,
            h == p11 as int + (p01 >> 32) as int + (p10 >> 32) as int + (middle >> 32) as int,
    ;
    assert(a as int * b as int <= 0xffff_ffff_ffff_ffff * 0xffff_ffff_ffff_ffff) by (nonlinear_arith)
        requires
            a <= 0xffff_ffff_ffff_ffffu64,
            b <= 0xffff_ffff_ffff_ffffu64,
    ;
    assert(h <= u64::MAX) by (nonlinear_arith)
        requires
            a as int * b as int == h * (k * k) + lo as int,
            a as int * b as int <= 0xffff_ffff_ffff_ffff * 0xffff_ffff_ffff_ffff,
            lo >= 0,
            k == 0x1_0000_0000,
            h >= 0,
    ;
}

} // verus!
