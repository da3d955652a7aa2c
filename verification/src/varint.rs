//! Variable-length unsigned integers: little-endian groups of seven bits,
//! one per byte, with the byte's high bit set while more groups follow.

use vstd::arithmetic::div_mod::lemma_mod_multiples_vanish;
use vstd::arithmetic::power2::{lemma2_to64, lemma_pow2_adds, lemma_pow2_pos, pow2};
use vstd::prelude::*;

verus! {

/// How many bytes at the front of `s` announce that another byte follows.
pub open spec fn continuation_run(s: Seq<u8>) -> nat
    decreases s.len(),
{
    if s.len() > 0 && s[0] >= 0x80 {
        1 + continuation_run(s.skip(1))
    } else {
        0
    }
}

/// Whether `s` starts with a whole variable-length integer: its run of
/// continuation bytes is closed by a byte with the high bit clear.
pub open spec fn varint_complete(s: Seq<u8>) -> bool {
    continuation_run(s) < s.len()
}

/// The number of bytes that the integer at the front of `s` takes.
pub open spec fn varint_len(s: Seq<u8>) -> nat {
    continuation_run(s) + 1
}

/// The number that the integer at the front of `s` spells, however wide.
pub open spec fn varint_value(s: Seq<u8>) -> nat
    decreases s.len(),
{
    if s.len() == 0 {
        0
    } else if s[0] < 0x80 {
        s[0] as nat
    } else {
        (s[0] - 0x80) as nat + 0x80 * varint_value(s.skip(1))
    }
}

/// The bytes that spell `v`: as few groups as `v` needs, and at least one.
pub open spec fn varint_bytes(v: nat) -> Seq<u8>
    decreases v,
{
    if v < 0x80 {
        seq![v as u8]
    } else {
        seq![(v % 0x80 + 0x80) as u8] + varint_bytes(v / 0x80)
    }
}

/// A whole integer at the front of `s` is not changed by what follows `s`.
pub proof fn lemma_varint_extend(s: Seq<u8>, t: Seq<u8>)
    requires
        varint_complete(s),
    ensures
        varint_complete(s + t),
        varint_len(s + t) == varint_len(s),
        varint_value(s + t) == varint_value(s),
        varint_len(s) <= s.len(),
        (s + t).skip(varint_len(s) as int) == s.skip(varint_len(s) as int) + t,
    decreases s.len(),
{
    if s[0] >= 0x80 {
        assert((s + t).skip(1) =~= s.skip(1) + t);
        lemma_varint_extend(s.skip(1), t);
        let n = varint_len(s.skip(1)) as int;
        assert(s.skip(1).skip(n) =~= s.skip(n + 1));
        assert((s + t).skip(1).skip(n) =~= (s + t).skip(n + 1));
    } else {
        assert((s + t).skip(1) =~= s.skip(1) + t);
    }
}

/// Every number takes at least one byte.
pub proof fn lemma_varint_bytes_len(v: nat)
    ensures
        varint_bytes(v).len() >= 1,
    decreases v,
{
    if v >= 0x80 {
        lemma_varint_bytes_len(v / 0x80);
    }
}

/// Decoding what was encoded. Whatever follows them, the bytes of `v` are a
/// whole integer that spells `v` exactly, and the rest is left over
/// untouched.
pub proof fn law_varint_round_trip(v: nat, rest: Seq<u8>)
    ensures
        varint_complete(varint_bytes(v) + rest),
        varint_len(varint_bytes(v) + rest) == varint_bytes(v).len(),
        varint_value(varint_bytes(v) + rest) == v,
        (varint_bytes(v) + rest).skip(varint_bytes(v).len() as int) == rest,
    decreases v,
{
    let s = varint_bytes(v) + rest;
    if v < 0x80 {
        assert(s[0] == v);
        assert(s.skip(1) =~= rest);
    } else {
        let tail = varint_bytes(v / 0x80);
        law_varint_round_trip(v / 0x80, rest);
        assert(s[0] == v % 0x80 + 0x80);
        assert(s.skip(1) =~= tail + rest);
        assert(s.skip(1).skip(tail.len() as int) =~= s.skip(tail.len() as int + 1));
    }
}

/// Seven more bits of weight for each group read.
pub proof fn lemma_group_weight(count: nat)
    ensures
        pow2(0) == 1,
        pow2(7 * (count + 1)) == 0x80 * pow2(7 * count),
        pow2(7 * count) > 0,
{
    lemma2_to64();
    lemma_pow2_adds(7, 7 * count);
    lemma_pow2_pos(7 * count);
}

/// A left shift in 128 bits of a 64-bit number by less than 64 places is a
/// multiplication by a power of two.
pub proof fn lemma_wide_shift(x: u64, shift: u64)
    requires
        shift < 64,
    ensures
        ((x as u128) << (shift as u128)) == x * pow2(shift as nat),
    decreases shift,
{
    let wide = x as u128;
    if shift == 0 {
        lemma2_to64();
        assert(wide << 0u128 == wide) by (bit_vector);
        assert(x * 1 == x);
    } else {
        let less = (shift - 1) as u64;
        lemma_wide_shift(x, less);
        lemma_pow2_adds(1, less as nat);
        lemma2_to64();
        let before = wide << (less as u128);
        let after = wide << (shift as u128);
        assert(after == 2 * before) by (bit_vector)
            requires
                wide < 0x1_0000_0000_0000_0000u128,
                0 < shift < 64,
                less == shift - 1,
                before == wide << (less as u128),
                after == wide << (shift as u128),
        ;
        assert(1 + less as nat == shift as nat);
        assert(pow2(shift as nat) == 2 * pow2(less as nat));
        assert(before == x * pow2(less as nat));
        assert(2 * (x * pow2(less as nat)) == x * (2 * pow2(less as nat))) by (nonlinear_arith);
    }
}

/// A group whose weight is at least the width of the accumulator leaves
/// the accumulator as it is.
pub proof fn lemma_group_dropped(acc: nat, chunk: nat, weight_bits: nat, width_bits: nat)
    requires
        weight_bits >= width_bits,
    ensures
        pow2(width_bits) > 0,
        (acc + chunk * pow2(weight_bits)) % pow2(width_bits) == acc % pow2(width_bits),
{
    let m = pow2(width_bits) as int;
    let over = pow2((weight_bits - width_bits) as nat) as int;
    lemma_pow2_pos(width_bits);
    lemma_pow2_adds(width_bits, (weight_bits - width_bits) as nat);
    assert(pow2(weight_bits) == m * over);
    assert(chunk * (m * over) == m * (chunk * over)) by (nonlinear_arith);
    lemma_mod_multiples_vanish(chunk * over, acc as int, m);
}

/// A group shifted into a 32-bit accumulator that holds less than the
/// group's weight adds its weight, and what passes the width is lost.
pub proof fn lemma_group_into_u32(result: u32, chunk: u32, shift: u32, acc: nat)
    requires
        shift < 32,
        chunk < 0x80,
        acc < pow2(shift as nat),
        result == acc,
    ensures
        (result | (chunk << shift)) == (acc + chunk * pow2(shift as nat)) % 0x1_0000_0000,
{
    lemma_wide_shift(chunk as u64, shift as u64);
    lemma_wide_shift(1, shift as u64);
    let wide = (chunk as u128) << (shift as u128);
    let one = 1u128 << (shift as u128);
    let joined = result | (chunk << shift);
    assert(joined as u128 == (result as u128 + wide) % 0x1_0000_0000) by (bit_vector)
        requires
            shift < 32,
            chunk < 0x80,
            (result as u128) < one,
            one == 1u128 << (shift as u128),
            wide == (chunk as u128) << (shift as u128),
            joined == result | (chunk << shift),
    ;
}

/// The same for a 64-bit accumulator.
pub proof fn lemma_group_into_u64(result: u64, chunk: u64, shift: u64, acc: nat)
    requires
        shift < 64,
        chunk < 0x80,
        acc < pow2(shift as nat),
        result == acc,
    ensures
        (result | (chunk << shift)) == (acc + chunk * pow2(shift as nat))
            % 0x1_0000_0000_0000_0000,
{
    lemma_wide_shift(chunk, shift);
    lemma_wide_shift(1, shift);
    let wide = (chunk as u128) << (shift as u128);
    let one = 1u128 << (shift as u128);
    let joined = result | (chunk << shift);
    assert(joined as u128 == (result as u128 + wide) % 0x1_0000_0000_0000_0000)
        by (bit_vector)
        requires
            shift < 64,
            chunk < 0x80,
            (result as u128) < one,
            one == 1u128 << (shift as u128),
            wide == (chunk as u128) << (shift as u128),
            joined == result | (chunk << shift),
    ;
}

} // verus!
