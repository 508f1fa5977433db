//! Address arithmetic shared by every part of the allocator.

use vstd::arithmetic::div_mod::{lemma_fundamental_div_mod, lemma_mod_multiples_basic};
use vstd::arithmetic::power2::{lemma_pow2_pos, pow2};
use vstd::bits::{lemma_u64_low_bits_mask_is_mod, lemma_u64_pow2_no_overflow, low_bits_mask};
use vstd::prelude::*;

verus! {

/// log2 of the size of a virtual quantum.
pub const VIRTUAL_QUANTUM_BITS: u32 = 24;

/// Size in bytes of a virtual quantum (16 MiB).
pub const VIRTUAL_QUANTUM_SIZE: u64 = 0x100_0000;

/// log2 of the huge page size.
pub const PAGE_SIZE_LOG: u32 = 21;

/// Size in bytes of a huge page (2 MiB).
pub const PAGE_SIZE: u64 = 0x20_0000;

/// Number of huge pages in one quantum.
pub const PAGES_PER_QUANTUM: u64 = 8;

/// Mask of the 48 address bits.
pub const ADDRESS_BIT_MASK: u64 = 0xffff_ffff_ffff;

/// `a - b` modulo the word size.
pub open spec fn wrapping_sub_spec(a: usize, b: usize) -> int {
    if a >= b {
        a - b
    } else {
        a - b + usize::MAX + 1
    }
}

/// True where `b` is a power of two.
pub open spec fn is_pow2(b: u64) -> bool {
    exists|k: nat| k < 64 && b == pow2(k)
}

/// `a` rounded down to a multiple of `b`.
pub open spec fn align_down_spec(a: int, b: int) -> int {
    a - a % b
}

/// Compares `a` and `b` as two's-complement offsets from one another: true
/// where `a - b`, taken modulo the word size, has its sign bit set. For two
/// values less than half the word range apart this is `a < b`, also where the
/// difference crosses zero.
pub fn wrapping_less_than(a: usize, b: usize) -> (r: bool)
    ensures
        r == (wrapping_sub_spec(a, b) > usize::MAX / 2),
        a <= usize::MAX / 2 && b <= usize::MAX / 2 ==> r == (a < b),
{
    let d = a.wrapping_sub(b);
    d > usize::MAX / 2
}

pub proof fn lemma_align_down(a: u64, b: u64)
    requires
        is_pow2(b),
    ensures
        b > 0,
        a & !((b - 1) as u64) == a - a % b,
        (a - a % b) % (b as int) == 0,
{
    let k = choose|k: nat| k < 64 && b == pow2(k);
    lemma_pow2_pos(k);
    lemma_u64_pow2_no_overflow(k);
    lemma_u64_low_bits_mask_is_mod(a, k);
    assert(low_bits_mask(k) == pow2(k) - 1);
    assert(a & !((b - 1) as u64) == a - (a & ((b - 1) as u64))) by (bit_vector);
    lemma_fundamental_div_mod(a as int, b as int);
    lemma_mod_multiples_basic(a as int / b as int, b as int);
    assert((a / b) * b == b * (a / b)) by (nonlinear_arith);
}

/// Rounding down keeps a value at or above any multiple of `b` below it.
pub proof fn lemma_align_down_above(x: int, m: int, b: int)
    requires
        b > 0,
        0 <= m <= x,
        m % b == 0,
    ensures
        m <= x - x % b,
{
    lemma_fundamental_div_mod(x, b);
    lemma_fundamental_div_mod(m, b);
    vstd::arithmetic::div_mod::lemma_div_is_ordered(m, x, b);
    vstd::arithmetic::mul::lemma_mul_inequality(m / b, x / b, b);
    assert(b * (m / b) == (m / b) * b && b * (x / b) == (x / b) * b) by (nonlinear_arith);
}

/// Rounding down a value below `c + b` gives at most `c`, a multiple of `b`.
pub proof fn lemma_align_down_below(x: int, c: int, b: int)
    requires
        b > 0,
        0 <= x < c + b,
        0 <= c,
        c % b == 0,
    ensures
        x - x % b <= c,
{
    lemma_fundamental_div_mod(x, b);
    lemma_fundamental_div_mod(c, b);
    let xd = x / b;
    let cd = c / b;
    assert(b * xd <= b * cd) by (nonlinear_arith)
        requires
            b > 0,
            b * xd <= x,
            x < b * cd + b,
    ;
}

/// A quantum-aligned address is page-aligned.
pub proof fn lemma_quantum_aligned(x: int)
    requires
        x % (VIRTUAL_QUANTUM_SIZE as int) == 0,
    ensures
        x % (PAGE_SIZE as int) == 0,
{
    lemma_fundamental_div_mod(x, VIRTUAL_QUANTUM_SIZE as int);
    let k = x / (VIRTUAL_QUANTUM_SIZE as int);
    lemma_mod_multiples_basic(8 * k, PAGE_SIZE as int);
    assert(VIRTUAL_QUANTUM_SIZE as int * k == (8 * k) * PAGE_SIZE as int);
}

/// A multiple of the quantum size is a multiple of every power of two up to
/// the page size.
pub proof fn lemma_align_divides(x: int, align: u64)
    requires
        x % (VIRTUAL_QUANTUM_SIZE as int) == 0,
        is_pow2(align),
        align <= PAGE_SIZE,
    ensures
        x % (align as int) == 0,
{
    lemma_quantum_aligned(x);
    lemma_page_align_divides(x, align);
}

/// A multiple of the page size is a multiple of every power of two up to
/// the page size.
pub proof fn lemma_page_align_divides(x: int, align: u64)
    requires
        x % (PAGE_SIZE as int) == 0,
        is_pow2(align),
        align <= PAGE_SIZE,
    ensures
        x % (align as int) == 0,
{
    let k = choose|k: nat| k < 64 && align == pow2(k);
    lemma_pow2_pos(k);
    vstd::arithmetic::power2::lemma2_to64();
    if k > 21 {
        vstd::arithmetic::power2::lemma_pow2_strictly_increases(21, k);
    }
    vstd::arithmetic::power2::lemma_pow2_adds(k, (21 - k) as nat);
    lemma_fundamental_div_mod(x, PAGE_SIZE as int);
    let m = x / (PAGE_SIZE as int);
    let f = pow2((21 - k) as nat) as int;
    assert(PAGE_SIZE as int == align as int * f);
    assert(x == (m * f) * align as int) by (nonlinear_arith)
        requires
            x == PAGE_SIZE as int * m + 0,
            PAGE_SIZE as int == align as int * f,
    ;
    lemma_mod_multiples_basic(m * f, align as int);
}

/// Rounds `a` down to a multiple of the power of two `b`.
pub fn align_down(a: u64, b: u64) -> (r: u64)
    requires
        is_pow2(b),
    ensures
        r == align_down_spec(a as int, b as int),
        r <= a,
        r % b == 0,
        a - r < b,
{
    proof {
        lemma_align_down(a, b);
    }
    a & !(b - 1)
}

/// Rounds `a` down to a multiple of the power of two `ALIGN`.
pub fn align_down_const<const ALIGN: usize>(a: usize) -> (r: usize)
    requires
        is_pow2(ALIGN as u64),
    ensures
        r == align_down_spec(a as int, ALIGN as int),
        r <= a,
        r % ALIGN == 0,
        a - r < ALIGN,
{
    let r = align_down(a as u64, ALIGN as u64);
    r as usize
}

} // verus!
