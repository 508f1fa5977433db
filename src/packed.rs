//! Bit-field layout of the 64-bit occupancy records.

use vstd::arithmetic::div_mod::lemma_div_denominator;
use vstd::arithmetic::power2::{lemma_pow2_adds, lemma_pow2_pos, pow2};
use vstd::bits::lemma_u64_pow2_no_overflow;
use vstd::bits::{lemma_u64_shl_is_mul, lemma_u64_shr_is_div};
use vstd::prelude::*;

verus! {

/// The lowest `bits` bits set.
pub open spec fn low_mask(bits: u64) -> u64 {
    ((1u64 << bits) - 1) as u64
}

/// The field of `x` that starts at bit `shift` and is `bits` wide.
pub open spec fn field(x: u64, shift: u64, bits: u64) -> u64 {
    (x >> shift) & low_mask(bits)
}

/// The record that holds key `k` in the low `kb` bits, value `v` in the next
/// `vb` bits and count `c` above them.
pub open spec fn pack_spec(k: u64, v: u64, c: u64, kb: u64, vb: u64) -> u64 {
    ((c << vb) | v) << kb | k
}

/// A value of `x` fits in `bits` bits.
pub open spec fn fits(x: u64, bits: u64) -> bool {
    x < (1u64 << bits)
}

/// A mask of the lowest `bits` bits.
pub fn mask(bits: u32) -> (r: u64)
    requires
        bits < 64,
    ensures
        r == low_mask(bits as u64),
        r == pow2(bits as nat) - 1,
{
    proof {
        lemma_u64_pow2_no_overflow(bits as nat);
        lemma_u64_shl_is_mul(1, bits as u64);
    }
    (1u64 << bits) - 1
}

/// Whether `val` fits in `bits` bits.
pub fn check_width(val: u64, bits: u32) -> (r: bool)
    requires
        bits < 64,
    ensures
        r == fits(val, bits as u64),
{
    let m = mask(bits);
    proof {
        let b = bits as u64;
        assert((val | m) == m <==> val < (1u64 << b)) by (bit_vector)
            requires
                b < 64,
                m == ((1u64 << b) - 1) as u64,
        ;
    }
    (val | m) == m
}

/// Packing then reading each field gives back what was packed.
pub proof fn lemma_pack_fields(k: u64, v: u64, c: u64, kb: u64, vb: u64, cb: u64)
    requires
        kb + vb + cb <= 63,
        fits(k, kb),
        fits(v, vb),
        fits(c, cb),
    ensures
        pack_spec(k, v, c, kb, vb) & low_mask(kb) == k,
        field(pack_spec(k, v, c, kb, vb), kb, vb) == v,
        pack_spec(k, v, c, kb, vb) >> (kb + vb) == c,
{
    let r = pack_spec(k, v, c, kb, vb);
    let w = (c << vb) | v;
    assert(w < (1u64 << (vb + cb))) by (bit_vector)
        requires
            vb + cb <= 63,
            v < (1u64 << vb),
            c < (1u64 << cb),
            w == (c << vb) | v,
    ;
    assert(r & low_mask(kb) == k && r >> kb == w) by (bit_vector)
        requires
            kb + vb + cb <= 63,
            k < (1u64 << kb),
            w < (1u64 << (vb + cb)),
            r == w << kb | k,
    ;
    assert(w & low_mask(vb) == v && w >> vb == c) by (bit_vector)
        requires
            vb + cb <= 63,
            v < (1u64 << vb),
            c < (1u64 << cb),
            w == (c << vb) | v,
    ;
    lemma_shr_shr(r, kb, vb);
}

/// Shifting right by `a` then by `b` is shifting right by `a + b`.
pub proof fn lemma_shr_shr(x: u64, a: u64, b: u64)
    requires
        a + b < 64,
    ensures
        (x >> a) >> b == x >> (a + b),
{
    let y = x >> a;
    lemma_u64_shr_is_div(x, a);
    lemma_u64_shr_is_div(y, b);
    lemma_u64_shr_is_div(x, (a + b) as u64);
    lemma_pow2_pos(a as nat);
    lemma_pow2_pos(b as nat);
    lemma_pow2_adds(a as nat, b as nat);
    lemma_div_denominator(x as int, pow2(a as nat) as int, pow2(b as nat) as int);
}

/// Adding `d` to the count field leaves the key and value bits alone.
pub proof fn lemma_add_count(x: u64, d: u64, s: u64, cb: u64)
    requires
        s + cb <= 63,
        (x >> s) + d < (1u64 << cb),
        x >> s < (1u64 << cb),
        d < (1u64 << cb),
    ensures
        d << s <= u64::MAX - x,
        (x + (d << s)) as u64 >> s == (x >> s) + d,
        (x + (d << s)) as u64 & low_mask(s) == x & low_mask(s),
{
    assert(d << s <= u64::MAX - x && ((x + (d << s)) as u64 >> s) == (x >> s) + d && ((x + (d
        << s)) as u64 & low_mask(s)) == (x & low_mask(s))) by (bit_vector)
        requires
            s + cb <= 63,
            (x >> s) + d < (1u64 << cb),
            x >> s < (1u64 << cb),
            d < (1u64 << cb),
    ;
}

/// Taking one from a positive count field leaves the key and value bits alone.
pub proof fn lemma_sub_count(x: u64, s: u64)
    requires
        s < 64,
        x >> s >= 1,
    ensures
        1u64 << s <= x,
        (x - (1u64 << s)) as u64 >> s == (x >> s) - 1,
        (x - (1u64 << s)) as u64 & low_mask(s) == x & low_mask(s),
{
    assert(1u64 << s <= x && ((x - (1u64 << s)) as u64 >> s) == (x >> s) - 1 && ((x - (1u64
        << s)) as u64 & low_mask(s)) == (x & low_mask(s))) by (bit_vector)
        requires
            s < 64,
            x >> s >= 1,
    ;
}

/// The low `kb` bits of `x` are its key field and the field above them is the
/// value field; both are determined by the low `kb + vb` bits.
pub proof fn lemma_low_fields(x: u64, y: u64, kb: u64, vb: u64)
    requires
        kb + vb < 64,
        x & low_mask((kb + vb) as u64) == y & low_mask((kb + vb) as u64),
    ensures
        x & low_mask(kb) == y & low_mask(kb),
        field(x, kb, vb) == field(y, kb, vb),
{
    assert(x & low_mask(kb) == y & low_mask(kb) && field(x, kb, vb) == field(y, kb, vb))
        by (bit_vector)
        requires
            kb + vb < 64,
            x & low_mask((kb + vb) as u64) == y & low_mask((kb + vb) as u64),
    ;
}

} // verus!
