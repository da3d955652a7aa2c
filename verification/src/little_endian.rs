//! Fixed-width little-endian integers as byte sequences.

use vstd::arithmetic::div_mod::{
    lemma_breakdown, lemma_div_denominator, lemma_fundamental_div_mod_converse, lemma_mod_bound,
    lemma_mod_mod, lemma_small_mod,
};
use vstd::arithmetic::power::{lemma_pow_adds, lemma_pow_positive, pow};
use vstd::prelude::*;

verus! {

/// The number that the bytes of `s` spell, least significant byte first.
pub open spec fn le_value(s: Seq<u8>) -> nat
    decreases s.len(),
{
    if s.len() == 0 {
        0
    } else {
        s[0] as nat + 256 * le_value(s.skip(1))
    }
}

/// The `width` least significant bytes of `v`, least significant byte first.
pub open spec fn le_bytes(v: nat, width: nat) -> Seq<u8>
    decreases width,
{
    if width == 0 {
        Seq::empty()
    } else {
        seq![(v % 256) as u8] + le_bytes(v / 256, (width - 1) as nat)
    }
}

/// `pow(256, n)` one step at a time, and its sign.
pub proof fn lemma_radix_step(n: nat)
    ensures
        pow(256, 0) == 1,
        pow(256, n + 1) == 256 * pow(256, n),
        pow(256, n) > 0,
{
    reveal_with_fuel(pow, 2);
    lemma_pow_positive(256, n);
}

/// The weights of the widths that the buffer primitives read and write.
pub proof fn lemma_radix_values()
    ensures
        pow(256, 1) == 0x100,
        pow(256, 2) == 0x1_0000,
        pow(256, 4) == 0x1_0000_0000,
        pow(256, 8) == 0x1_0000_0000_0000_0000,
        pow(256, 16) == 0x1_0000_0000_0000_0000_0000_0000_0000_0000,
{
    reveal_with_fuel(pow, 3);
    lemma_pow_adds(256, 2, 2);
    assert(pow(256, 4) == 0x1_0000 * 0x1_0000);
    lemma_pow_adds(256, 4, 4);
    assert(pow(256, 8) == 0x1_0000_0000 * 0x1_0000_0000);
    lemma_pow_adds(256, 8, 8);
    assert(pow(256, 16) == 0x1_0000_0000_0000_0000 * 0x1_0000_0000_0000_0000);
}

/// The bytes of a width are as many as the width says.
pub proof fn lemma_le_bytes_len(v: nat, width: nat)
    ensures
        le_bytes(v, width).len() == width,
    decreases width,
{
    if width > 0 {
        lemma_le_bytes_len(v / 256, (width - 1) as nat);
    }
}

/// The value of a concatenation: the second part weighs `256` to the length
/// of the first.
pub proof fn lemma_le_value_concat(a: Seq<u8>, b: Seq<u8>)
    ensures
        le_value(a + b) == le_value(a) + pow(256, a.len()) * le_value(b),
    decreases a.len(),
{
    lemma_radix_step(0);
    if a.len() == 0 {
        assert(a + b =~= b);
    } else {
        let rest = a.skip(1);
        assert((a + b).skip(1) =~= rest + b);
        lemma_le_value_concat(rest, b);
        lemma_radix_step(rest.len());
        let w = pow(256, rest.len());
        let vb = le_value(b) as int;
        assert(256 * (w * vb) == (256 * w) * vb) by (nonlinear_arith);
    }
}

/// The bytes of `v` split at any byte boundary into those of its low part
/// and those of its high part.
pub proof fn lemma_le_bytes_split(v: nat, low: nat, high: nat)
    ensures
        pow(256, low) > 0,
        le_bytes(v, low + high) == le_bytes((v % (pow(256, low) as nat)), low) + le_bytes(
            v / (pow(256, low) as nat),
            high,
        ),
    decreases low,
{
    lemma_radix_step(low);
    if low == 0 {
        assert(le_bytes(v, high) =~= Seq::<u8>::empty() + le_bytes(v, high));
    } else {
        let q = pow(256, (low - 1) as nat);
        lemma_radix_step((low - 1) as nat);
        let p = pow(256, low);
        assert(p == 256 * q);
        lemma_le_bytes_split(v / 256, (low - 1) as nat, high);
        lemma_mod_mod(v as int, 256, q);
        lemma_breakdown(v as int, 256, q);
        lemma_mod_bound((v / 256) as int, q);
        lemma_fundamental_div_mod_converse(
            (v as int) % p,
            256,
            ((v as int) / 256) % q,
            (v as int) % 256,
        );
        lemma_div_denominator(v as int, 256, q);
        let lo = (v % (p as nat));
        assert(lo % 256 == v % 256);
        assert(lo / 256 == (v / 256) % (q as nat));
        assert((v / 256) / (q as nat) == v / (p as nat));
        assert(le_bytes(v, low + high) =~= le_bytes(lo, low) + le_bytes(v / (p as nat), high));
    }
}

/// Reading back what was written. Whatever follows them, the `width` bytes
/// of `v` spell `v` again as far as it fits in `width` bytes, and the rest
/// is left over untouched.
pub proof fn law_fixed_width_round_trip(v: nat, width: nat, rest: Seq<u8>)
    ensures
        le_bytes(v, width).len() == width,
        (le_bytes(v, width) + rest).take(width as int) == le_bytes(v, width),
        (le_bytes(v, width) + rest).skip(width as int) == rest,
        pow(256, width) > 0,
        le_value(le_bytes(v, width)) == v % (pow(256, width) as nat),
        v < pow(256, width) ==> le_value(le_bytes(v, width)) == v,
    decreases width,
{
    lemma_le_bytes_len(v, width);
    lemma_radix_step(width);
    assert((le_bytes(v, width) + rest).take(width as int) =~= le_bytes(v, width));
    assert((le_bytes(v, width) + rest).skip(width as int) =~= rest);
    if width > 0 {
        let q = pow(256, (width - 1) as nat);
        lemma_radix_step((width - 1) as nat);
        law_fixed_width_round_trip(v / 256, (width - 1) as nat, rest);
        let tail = le_bytes(v / 256, (width - 1) as nat);
        assert(le_bytes(v, width).skip(1) =~= tail);
        lemma_breakdown(v as int, 256, q);
    }
    if v < pow(256, width) {
        lemma_small_mod(v, pow(256, width) as nat);
    }
}

} // verus!
