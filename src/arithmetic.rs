use vstd::prelude::*;
use vstd::arithmetic::div_mod::{lemma_add_mod_noop, lemma_mod_add_multiples_vanish, lemma_small_mod};
use vstd::arithmetic::power2::pow2;
use vstd::bits::{lemma_u32_pow2_no_overflow, lemma_u64_pow2_no_overflow, lemma_u64_shl_is_mul};

verus! {

/// The mask of the bits below position `i`.
pub open spec fn mask_below(i: u32) -> u64 {
    ((1u64 << i) - 1) as u64
}

/// The sum of the bits of `a` and of `b` below position `i`.
pub open spec fn low_sum(a: u32, b: u32, i: u32) -> u64 {
    (((a as u64) & mask_below(i)) + ((b as u64) & mask_below(i))) as u64
}

/// One more step of the ripple-carry addition: after the bits below `i`,
/// the partial sum and the carry are those of the bits below `i + 1`.
proof fn lemma_adder_step(a: u32, b: u32, i: u32, result: u32, c: u32)
    by (bit_vector)
    requires
        i < 32,
        result as u64 == low_sum(a, b, i) & mask_below(i),
        c as u64 == low_sum(a, b, i) >> i,
    ensures
        (result | ((((a >> i) & 1) ^ ((b >> i) & 1) ^ c) << i)) as u64 == low_sum(
            a,
            b,
            (i + 1) as u32,
        ) & mask_below((i + 1) as u32),
        ((((a >> i) & 1) & ((b >> i) & 1)) | (((b >> i) & 1) & c) | (((a >> i) & 1) & c)) as u64
            == low_sum(a, b, (i + 1) as u32) >> ((i + 1) as u32),
{
}

/// The sum of `a` and `b` modulo 2^32, computed one bit at a time with a
/// ripple carry.
pub fn adder(a: u32, b: u32) -> (r: u32)
    ensures
        r as int == (a + b) % 0x1_0000_0000,
{
    let mut result: u32 = 0;
    let mut c: u32 = 0;
    let mut i: u32 = 0;
    assert(low_sum(a, b, 0) & mask_below(0) == 0u64 && low_sum(a, b, 0) >> 0u32 == 0u64)
        by (bit_vector);
    while i < 32
        invariant
            i <= 32,
            result as u64 == low_sum(a, b, i) & mask_below(i),
            c as u64 == low_sum(a, b, i) >> i,
        decreases 32 - i,
    {
        let x = (a >> i) & 1;
        let y = (b >> i) & 1;
        proof {
            lemma_adder_step(a, b, i, result, c);
        }
        result = result | ((x ^ y ^ c) << i);
        c = (x & y) | (y & c) | (x & c);
        i = i + 1;
    }
    assert(result as u64 == low_sum(a, b, 32) & mask_below(32) ==> result as u64 == ((a as u64)
        + (b as u64)) % 0x1_0000_0000) by (bit_vector);
    result
}

/// The difference `a - b` modulo 2^32: the complement of the sum of the
/// complement of `a` and `b`.
pub fn subber(a: u32, b: u32) -> (r: u32)
    ensures
        r as int == (a - b) % 0x1_0000_0000,
{
    let na = !a;
    let s = adder(na, b);
    assert(s as u64 == ((na as u64) + (b as u64)) % 0x1_0000_0000 ==> (!s) as u64 == ((a as u64)
        + 0x1_0000_0000u64 - (b as u64)) % 0x1_0000_0000) by (bit_vector)
        requires
            na == !a,
    ;
    proof {
        lemma_mod_add_multiples_vanish(a - b, 0x1_0000_0000int);
    }
    !s
}

/// The bits of `x` below position `i`.
pub open spec fn low_bits(x: u32, i: u32) -> u64 {
    (x as u64) & mask_below(i)
}

/// One more step of the shift-and-add multiplication: after the bits of
/// `a` below `i`, the partial product is that of the bits below `i + 1`.
proof fn lemma_multiplier_step(a: u32, b: u32, i: u32, result: u32)
    requires
        i < 32,
        result as int == (low_bits(a, i) * b) % 0x1_0000_0000,
    ensures
        (a >> i) & 1 == 1 ==> (result + (b << i)) % 0x1_0000_0000 == (low_bits(a, (i + 1) as u32)
            * b) % 0x1_0000_0000,
        (a >> i) & 1 != 1 ==> result as int == (low_bits(a, (i + 1) as u32) * b) % 0x1_0000_0000,
{
    let lo = low_bits(a, i);
    let hi = low_bits(a, (i + 1) as u32);
    let s = b << i;
    let wide = (b as u64) << (i as u64);
    let unit = 1u64 << (i as u64);
    assert((a >> i) & 1 == 1 ==> hi == lo + unit) by (bit_vector)
        requires
            i < 32,
            lo == (a as u64) & mask_below(i),
            hi == (a as u64) & mask_below((i + 1) as u32),
            unit == 1u64 << (i as u64),
    ;
    assert((a >> i) & 1 != 1 ==> hi == lo) by (bit_vector)
        requires
            i < 32,
            lo == (a as u64) & mask_below(i),
            hi == (a as u64) & mask_below((i + 1) as u32),
    ;
    assert(s as u64 == wide % 0x1_0000_0000) by (bit_vector)
        requires
            i < 32,
            s == b << i,
            wide == (b as u64) << (i as u64),
    ;
    lemma_u64_pow2_no_overflow(i as nat);
    lemma_u32_pow2_no_overflow(i as nat);
    let p = pow2(i as nat);
    assert(1 * p <= u64::MAX);
    lemma_u64_shl_is_mul(1u64, i as u64);
    assert(b * p <= u64::MAX) by (nonlinear_arith)
        requires
            b <= u32::MAX,
            p < u32::MAX,
    ;
    lemma_u64_shl_is_mul(b as u64, i as u64);
    assert(unit == p);
    assert(wide == b * p);
    if (a >> i) & 1 == 1 {
        let m: int = 0x1_0000_0000;
        lemma_add_mod_noop(lo * b, b * p, m);
        lemma_small_mod(result as nat, m as nat);
        assert(hi * b == lo * b + b * p) by (nonlinear_arith)
            requires
                hi == lo + p,
        ;
    }
}

/// The product of `a` and `b` modulo 2^32, computed by shifts and
/// additions.
pub fn multiplier(a: u32, b: u32) -> (r: u32)
    ensures
        r as int == (a * b) % 0x1_0000_0000,
{
    let mut x: u32 = a;
    let mut result: u32 = 0;
    let mut i: u32 = 0;
    assert(low_bits(a, 0) == 0u64 && a >> 0u32 == a) by (bit_vector);
    while i < 32
        invariant
            i <= 32,
            i < 32 ==> x == a >> i,
            result as int == (low_bits(a, i) * b) % 0x1_0000_0000,
        decreases 32 - i,
    {
        proof {
            lemma_multiplier_step(a, b, i, result);
        }
        if x & 1 == 1 {
            result = adder(result, b << i);
        }
        proof {
            assert(i < 31 ==> x >> 1 == a >> ((i + 1) as u32)) by (bit_vector)
                requires
                    x == a >> i,
            ;
        }
        x = x >> 1;
        i = i + 1;
    }
    assert(low_bits(a, 32) == a as u64) by (bit_vector);
    result
}

/// The reflected binary code of `a`: `a` with each bit replaced by its
/// exclusive or with the bit above.
pub fn gray_code(a: u32) -> (r: u32)
    ensures
        r == a ^ (a >> 1),
{
    a ^ (a >> 1)
}

/// The codes of two consecutive numbers differ in exactly one bit.
pub proof fn lemma_gray_code_step(a: u32)
    by (bit_vector)
    requires
        a < 0xffff_ffffu32,
    ensures
        (a ^ (a >> 1)) ^ (((a + 1) as u32) ^ (((a + 1) as u32) >> 1)) != 0,
        ((a ^ (a >> 1)) ^ (((a + 1) as u32) ^ (((a + 1) as u32) >> 1))) & (((a ^ (a >> 1)) ^ (((a
            + 1) as u32) ^ (((a + 1) as u32) >> 1))) - 1) as u32 == 0,
{
}

} // verus!
