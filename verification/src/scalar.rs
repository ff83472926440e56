//! Scalar arithmetic for tensor entries.  Contraction multiplies and
//! accumulates `i64` entries with wrapping semantics, so every result is the
//! mathematical value reduced modulo 2^64 into the signed 64-bit range.
//! `wrap_val` is that reduction; the lemmas here let a wrapped running
//! product or sum stand for the wrapped value of the exact integer it tracks.

use vstd::arithmetic::div_mod::{
    lemma_add_mod_noop, lemma_mod_bound, lemma_mod_twice, lemma_mul_mod_noop,
    lemma_small_mod,
};
use vstd::prelude::*;
use vstd::wrapping::i64_specs;

verus! {

/// The modulus of wrapping 64-bit arithmetic.
pub open spec fn two_64() -> int {
    0x1_0000_0000_0000_0000
}

/// The signed 64-bit value congruent to `x` modulo 2^64: the value a chain
/// of wrapping operations leaves for an exact integer result `x`.
pub open spec fn wrap_val(x: int) -> i64 {
    i64_specs::signed_crop(x)
}

/// `wrap_val(x)` is congruent to `x` and is the only in-range value that is.
proof fn lemma_wrap_val_mod(x: int)
    ensures
        i64::MIN <= wrap_val(x) <= i64::MAX,
        (wrap_val(x) as int) % two_64() == x % two_64(),
{
    let r = two_64();
    lemma_mod_bound(x, r);
    lemma_mod_twice(x, r);
    if x % r > i64::MAX {
        assert((x % r - r) % r == x % r % r) by {
            vstd::arithmetic::div_mod::lemma_mod_sub_multiples_vanish(x % r, r);
        };
    }
}

/// Congruent integers wrap to the same value.
proof fn lemma_wrap_val_congruent(x: int, y: int)
    requires
        x % two_64() == y % two_64(),
    ensures
        wrap_val(x) == wrap_val(y),
{
}

/// A value already in the signed 64-bit range is its own wrapped value.
pub proof fn lemma_wrap_val_id(x: int)
    requires
        i64::MIN <= x <= i64::MAX,
    ensures
        wrap_val(x) == x,
{
    let r = two_64();
    if x >= 0 {
        lemma_small_mod(x as nat, r as nat);
    } else {
        assert((x + r) % r == x % r) by {
            vstd::arithmetic::div_mod::lemma_mod_add_multiples_vanish(x, r);
        };
        lemma_small_mod((x + r) as nat, r as nat);
    }
}

/// Any in-range value congruent to `x` is `wrap_val(x)`.
proof fn lemma_wrap_val_unique(x: int, v: int)
    requires
        i64::MIN <= v <= i64::MAX,
        v % two_64() == x % two_64(),
    ensures
        wrap_val(x) == v,
{
    lemma_wrap_val_id(v);
    lemma_wrap_val_congruent(x, v);
}

/// The wrapping addition of two stored scalars is the wrapped exact sum.
pub proof fn lemma_wrapping_add_val(a: i64, b: i64)
    ensures
        i64_specs::wrapping_add(a, b) == wrap_val(a + b),
{
    let r = two_64();
    let s = a + b;
    if s > i64::MAX {
        assert((s - r) % r == s % r) by {
            vstd::arithmetic::div_mod::lemma_mod_sub_multiples_vanish(s, r);
        };
        lemma_wrap_val_unique(s, s - r);
    } else if s < i64::MIN {
        assert((s + r) % r == s % r) by {
            vstd::arithmetic::div_mod::lemma_mod_add_multiples_vanish(s, r);
        };
        lemma_wrap_val_unique(s, s + r);
    } else {
        lemma_wrap_val_id(s);
    }
}

/// Wrapping one addend first does not change a wrapped sum.
pub proof fn lemma_wrap_add_left(x: int, y: int)
    ensures
        wrap_val(wrap_val(x) + y) == wrap_val(x + y),
{
    let r = two_64();
    lemma_wrap_val_mod(x);
    lemma_add_mod_noop(wrap_val(x) as int, y, r);
    lemma_add_mod_noop(x, y, r);
    lemma_wrap_val_congruent(wrap_val(x) + y, x + y);
}

/// Wrapping both factors first does not change a wrapped product.
pub proof fn lemma_wrap_mul_both(x: int, y: int)
    ensures
        wrap_val((wrap_val(x) as int) * (wrap_val(y) as int)) == wrap_val(x * y),
{
    let r = two_64();
    lemma_wrap_val_mod(x);
    lemma_wrap_val_mod(y);
    lemma_mul_mod_noop(wrap_val(x) as int, wrap_val(y) as int, r);
    lemma_mul_mod_noop(x, y, r);
    lemma_wrap_val_congruent((wrap_val(x) as int) * (wrap_val(y) as int), x * y);
}

} // verus!
