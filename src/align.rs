//! Power-of-two alignment arithmetic.

use vstd::arithmetic::power2::{
    lemma2_to64, lemma2_to64_rest, lemma_pow2_pos, lemma_pow2_strictly_increases, lemma_pow2_unfold,
    pow2,
};
use vstd::arithmetic::div_mod::{
    lemma_fundamental_div_mod, lemma_fundamental_div_mod_converse, lemma_mod_pos_bound,
    lemma_mod_self_0, lemma_small_mod,
};
use vstd::bits::{lemma_usize_low_bits_mask_is_mod, low_bits_mask};
use vstd::prelude::*;

verus! {

/// `a` is a non-zero power of two.
pub open spec fn is_pow2(a: usize) -> bool {
    a != 0 && a & ((a - 1) as usize) == 0
}

/// The largest multiple of `a` that is at most `x` (floor division, so it is
/// negative for negative `x`).
pub open spec fn align_down_spec(x: int, a: int) -> int {
    x - x % a
}

/// The smallest multiple of `a` that is at least `x`.
pub open spec fn align_up_spec(x: int, a: int) -> int {
    x + (a - x % a) % a
}

/// A power of two in the bit-mask sense is `2^n` for some `n` below the word size.
proof fn lemma_pow2_log(a: usize) -> (n: nat)
    requires
        is_pow2(a),
    ensures
        n < usize::BITS,
        pow2(n) == a,
    decreases a,
{
    if a == 1 {
        lemma2_to64();
        0
    } else {
        let h = a / 2;
        assert(a % 2 == 0 && h != 0 && h & ((h - 1) as usize) == 0) by (bit_vector)
            requires
                a != 0,
                a != 1,
                a & ((a - 1) as usize) == 0,
                h == a / 2,
        ;
        let m = lemma_pow2_log(h);
        let n = m + 1;
        lemma_pow2_unfold(n);
        if n >= usize::BITS {
            lemma2_to64();
            lemma2_to64_rest();
            if n > usize::BITS {
                lemma_pow2_strictly_increases(usize::BITS as nat, n);
            }
        }
        n
    }
}

/// Masking off the low bits of `x` takes away `x % a`.
proof fn lemma_mask_down(x: usize, a: usize)
    requires
        is_pow2(a),
    ensures
        x & !((a - 1) as usize) == x - x % a,
        (x - x % a) as int % a as int == 0,
{
    let n = lemma_pow2_log(a);
    lemma_pow2_pos(n);
    lemma_usize_low_bits_mask_is_mod(x, n);
    let m = (a - 1) as usize;
    assert(low_bits_mask(n) as usize == m);
    assert(x & !m == x - (x & m)) by (bit_vector);
    lemma_fundamental_div_mod(x as int, a as int);
    vstd::arithmetic::div_mod::lemma_mod_multiples_basic(x as int / a as int, a as int);
}

/// Rounding down never goes up, and lands within `a` below `x`.
pub proof fn lemma_down_le(x: int, a: int)
    requires
        a > 0,
    ensures
        align_down_spec(x, a) <= x,
        align_down_spec(x, a) > x - a,
        align_down_spec(x, a) % a == 0,
{
    vstd::arithmetic::div_mod::lemma_mod_bound(x, a);
    lemma_fundamental_div_mod(x, a);
    assert(x - x % a == (x / a) * a);
    vstd::arithmetic::div_mod::lemma_mod_multiples_basic(x / a, a);
}

/// Rounding up either keeps an aligned `x` or lands one step above rounding down.
pub proof fn lemma_up_from_down(x: int, a: int)
    requires
        x >= 0,
        a > 0,
    ensures
        x % a == 0 ==> align_up_spec(x, a) == x,
        x % a != 0 ==> align_up_spec(x, a) == align_down_spec(x, a) + a,
        align_up_spec(x, a) % a == 0,
{
    lemma_mod_pos_bound(x, a);
    lemma_mod_self_0(a);
    if x % a != 0 {
        lemma_small_mod((a - x % a) as nat, a as nat);
        lemma_fundamental_div_mod(x, a);
        assert(x - x % a + a == a * (x / a + 1)) by (nonlinear_arith)
            requires
                x == a * (x / a) + x % a,
        ;
        vstd::arithmetic::div_mod::lemma_mod_multiples_basic(x / a + 1, a);
    }
}

/// Rounds `pos` down to a multiple of `align`.
pub fn align_down(pos: usize, align: usize) -> (r: usize)
    requires
        is_pow2(align),
    ensures
        r == align_down_spec(pos as int, align as int),
        r as int % align as int == 0,
        r <= pos,
{
    proof {
        lemma_mask_down(pos, align);
    }
    pos & !(align - 1)
}

/// Rounds `pos` up to a multiple of `align`; the sum `pos + align - 1` must fit.
pub fn align_up(pos: usize, align: usize) -> (r: usize)
    requires
        is_pow2(align),
        pos as int + align as int - 1 <= usize::MAX,
    ensures
        r == align_up_spec(pos as int, align as int),
        r as int % align as int == 0,
        r >= pos,
{
    let s = pos + (align - 1);
    proof {
        lemma_mask_down(s, align);
        let (x, a) = (pos as int, align as int);
        let (q, t) = (x / a, x % a);
        lemma_fundamental_div_mod(x, a);
        lemma_mod_pos_bound(x, a);
        if t == 0 {
            assert(s == q * a + (a - 1));
            lemma_fundamental_div_mod_converse(s as int, a, q, a - 1);
            lemma_mod_self_0(a);
        } else {
            assert(s == (q + 1) * a + (t - 1)) by (nonlinear_arith)
                requires
                    s == x + a - 1,
                    x == a * q + t,
            ;
            lemma_fundamental_div_mod_converse(s as int, a, q + 1, t - 1);
            lemma_small_mod((a - t) as nat, a as nat);
        }
    }
    s & !(align - 1)
}

} // verus!
