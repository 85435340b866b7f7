//! Single-bit access to bytes, and the arithmetic meaning of a run of bits.

use vstd::arithmetic::div_mod::{lemma_div_basics, lemma_mod_breakdown};
use vstd::arithmetic::power2::{lemma2_to64, lemma_pow2_pos, lemma_pow2_strictly_increases, lemma_pow2_unfold, pow2};
use vstd::bits::{lemma_u32_shr_is_div, lemma_u8_shl_is_mul, lemma_u8_shr_is_div};
use vstd::prelude::*;

verus! {

/// Bit `i` (0 is the least significant) of the non-negative integer `v`.
pub open spec fn bit_of(v: int, i: nat) -> int {
    (v / (pow2(i) as int)) % 2
}

/// The number whose bit `i` is `bits[i]`: the first element is the least significant.
pub open spec fn value_of_bits(bits: Seq<u8>) -> int
    decreases bits.len(),
{
    if bits.len() == 0 {
        0
    } else {
        value_of_bits(bits.drop_last()) + pow2((bits.len() - 1) as nat) * bits.last()
    }
}

/// The lowest `n` bits of `v`, least significant first.
pub open spec fn low_bits(v: int, n: nat) -> Seq<u8> {
    Seq::new(n, |i: int| bit_of(v, i as nat) as u8)
}

/// Reading back the lowest `n` bits of `v` gives `v` modulo `2^n`.
pub proof fn lemma_value_of_low_bits(v: int, n: nat)
    requires
        v >= 0,
    ensures
        value_of_bits(low_bits(v, n)) == v % (pow2(n) as int),
    decreases n,
{
    if n == 0 {
        lemma2_to64();
        assert(low_bits(v, 0) =~= Seq::<u8>::empty());
    } else {
        let m = (n - 1) as nat;
        lemma_value_of_low_bits(v, m);
        assert(low_bits(v, n).drop_last() =~= low_bits(v, m));
        lemma_pow2_unfold(n);
        lemma_pow2_pos(m);
        let p = pow2(m) as int;
        assert(p * 2 == pow2(n) as int);
        lemma_mod_breakdown(v, p, 2);
        assert(0 <= bit_of(v, m) < 2);
    }
}

/// Bit 0 is the remainder modulo 2.
pub proof fn lemma_bit_zero(v: int)
    ensures
        bit_of(v, 0) == v % 2,
{
    lemma2_to64();
    lemma_div_basics(v);
}

/// A value of type `u8` is its own lowest eight bits.
pub proof fn lemma_byte_of_bits(b: u8)
    ensures
        value_of_bits(low_bits(b as int, 8)) == b as int,
{
    lemma_value_of_low_bits(b as int, 8);
    lemma2_to64();
}

/// Bit `n` of `byte`, as `0` or `1`.
pub fn get_bit(byte: u8, n: u8) -> (r: u8)
    requires
        n < 8,
    ensures
        r as int == bit_of(byte as int, n as nat),
        r <= 1,
{
    proof {
        lemma_u8_shr_is_div(byte, n);
        let s = byte >> n;
        assert(s & 1 == s % 2) by (bit_vector);
    }
    (byte >> n) & 1
}

/// Bit `i` of a `u32`, read through a shift.
pub proof fn lemma_u32_bit(v: u32, i: u32)
    requires
        i < 32,
    ensures
        ((v >> i) & 1) as int == bit_of(v as int, i as nat),
{
    lemma_u32_shr_is_div(v, i);
    let s = v >> i;
    assert(s & 1 == s % 2) by (bit_vector);
}

/// `byte` with bit `n` replaced by `value`; every other bit is kept.
pub fn set_bit(byte: u8, n: u8, value: u8) -> (r: u8)
    requires
        n < 8,
        value <= 1,
    ensures
        r as int == byte as int - bit_of(byte as int, n as nat) * pow2(n as nat) + value as int
            * pow2(n as nat),
{
    let r = (byte & !(1u8 << n)) | (value << n);
    proof {
        lemma_u8_shr_is_div(byte, n);
        assert(pow2(n as nat) <= 128) by {
            lemma2_to64();
            if n < 7 {
                lemma_pow2_strictly_increases(n as nat, 7);
            }
        }
        lemma_u8_shl_is_mul(1u8, n);
        let s = byte >> n;
        assert(s & 1 == s % 2) by (bit_vector);
        assert(r as int + ((byte >> n) & 1) as int * (1u8 << n) as int == byte as int + value as int
            * (1u8 << n) as int) by (bit_vector)
            requires
                n < 8,
                value <= 1,
                r == (byte & !(1u8 << n)) | (value << n),
        ;
    }
    r
}

} // verus!
