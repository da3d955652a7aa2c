//! A cursor that reads integers and byte runs off the front of a byte
//! sequence, and a writer that appends them to a growing one.

use crate::little_endian::{
    le_bytes, le_value, lemma_le_bytes_split, lemma_le_value_concat, lemma_radix_values,
};
use crate::varint::{
    continuation_run, lemma_group_dropped, lemma_group_into_u32, lemma_group_into_u64,
    lemma_group_weight, varint_bytes, varint_complete, varint_len, varint_value,
};
use vstd::arithmetic::div_mod::lemma_small_mod;
use vstd::arithmetic::power2::{lemma2_to64, lemma_pow2_strictly_increases, pow2};
use vstd::prelude::*;

verus! {

/// A cursor over a byte sequence. Every read takes bytes off the front of
/// what is left; a read that asks for more than is left fails and leaves
/// nothing.
#[derive(Debug)]
pub struct BufferReader {
    buffer: Vec<u8>,
    pos: usize,
}

impl View for BufferReader {
    type V = Seq<u8>;

    /// The bytes that have not been read yet.
    closed spec fn view(&self) -> Seq<u8> {
        self.buffer@.skip(self.pos as int)
    }
}

impl BufferReader {
    #[verifier::type_invariant]
    spec fn cursor_within(&self) -> bool {
        self.pos <= self.buffer.len()
    }

    /// A cursor at the first byte of `buffer`.
    pub fn new(buffer: Vec<u8>) -> (r: BufferReader)
        ensures
            r@ == buffer@,
    {
        BufferReader { buffer, pos: 0 }
    }

    /// Whether every byte has been read.
    pub fn is_empty(&self) -> (r: bool)
        ensures
            r == (self@.len() == 0),
    {
        proof {
            use_type_invariant(self);
        }
        self.pos >= self.buffer.len()
    }

    /// The number of bytes that are left to read.
    pub fn remaining(&self) -> (r: usize)
        ensures
            r == self@.len(),
    {
        proof {
            use_type_invariant(self);
        }
        self.buffer.len() - self.pos
    }

    /// The next byte.
    pub fn read_u8(&mut self) -> (r: Option<u8>)
        ensures
            match r {
                Some(byte) => old(self)@.len() >= 1 && byte == old(self)@[0] && final(self)@
                    == old(self)@.skip(1),
                None => old(self)@.len() == 0 && final(self)@.len() == 0,
            },
    {
        proof {
            use_type_invariant(&*self);
        }
        if self.pos < self.buffer.len() {
            let byte: u8 = self.buffer[self.pos];
            self.pos += 1;
            assert(self@ =~= old(self)@.skip(1));
            Some(byte)
        } else {
            None
        }
    }

    /// Two bytes, least significant first.
    pub fn read_u16(&mut self) -> (r: Option<u16>)
        ensures
            match r {
                Some(v) => old(self)@.len() >= 2 && v == le_value(old(self)@.take(2))
                    && final(self)@ == old(self)@.skip(2),
                None => old(self)@.len() < 2 && final(self)@.len() == 0,
            },
    {
        let low: u16 = self.read_u8()? as u16;
        let high: u16 = self.read_u8()? as u16;
        proof {
            let s = old(self)@;
            assert(s.skip(1).skip(1) =~= s.skip(2));
            assert(s.take(2).skip(1) =~= seq![s[1]]);
            assert(seq![s[1]].skip(1) =~= Seq::<u8>::empty());
            reveal_with_fuel(le_value, 3);
            assert(le_value(s.take(2)) == low + 256 * high);
            assert(low | (high << 8) == low + 256 * high) by (bit_vector)
                requires
                    low < 256,
                    high < 256,
            ;
        }
        Some(low | (high << 8))
    }

    /// Four bytes, least significant first: two halves of two bytes.
    pub fn read_u32(&mut self) -> (r: Option<u32>)
        ensures
            match r {
                Some(v) => old(self)@.len() >= 4 && v == le_value(old(self)@.take(4))
                    && final(self)@ == old(self)@.skip(4),
                None => old(self)@.len() < 4 && final(self)@.len() == 0,
            },
    {
        let low: u32 = self.read_u16()? as u32;
        let high: u32 = self.read_u16()? as u32;
        proof {
            let s = old(self)@;
            assert(s.skip(2).skip(2) =~= s.skip(4));
            assert(s.take(2) + s.skip(2).take(2) =~= s.take(4));
            lemma_le_value_concat(s.take(2), s.skip(2).take(2));
            lemma_radix_values();
            assert(low | (high << 16) == low + 0x1_0000 * high) by (bit_vector)
                requires
                    low < 0x1_0000,
                    high < 0x1_0000,
            ;
        }
        Some(low | (high << 16))
    }

    /// Eight bytes, least significant first: two halves of four bytes.
    pub fn read_u64(&mut self) -> (r: Option<u64>)
        ensures
            match r {
                Some(v) => old(self)@.len() >= 8 && v == le_value(old(self)@.take(8))
                    && final(self)@ == old(self)@.skip(8),
                None => old(self)@.len() < 8 && final(self)@.len() == 0,
            },
    {
        let low: u64 = self.read_u32()? as u64;
        let high: u64 = self.read_u32()? as u64;
        proof {
            let s = old(self)@;
            assert(s.skip(4).skip(4) =~= s.skip(8));
            assert(s.take(4) + s.skip(4).take(4) =~= s.take(8));
            lemma_le_value_concat(s.take(4), s.skip(4).take(4));
            lemma_radix_values();
            assert(low | (high << 32) == low + 0x1_0000_0000 * high) by (bit_vector)
                requires
                    low < 0x1_0000_0000,
                    high < 0x1_0000_0000,
            ;
        }
        Some(low | (high << 32))
    }

    /// Sixteen bytes, least significant first: two halves of eight bytes.
    pub fn read_u128_le(&mut self) -> (r: Option<u128>)
        ensures
            match r {
                Some(v) => old(self)@.len() >= 16 && v == le_value(old(self)@.take(16))
                    && final(self)@ == old(self)@.skip(16),
                None => old(self)@.len() < 16 && final(self)@.len() == 0,
            },
    {
        let low: u128 = self.read_u64()? as u128;
        let high: u128 = self.read_u64()? as u128;
        proof {
            let s = old(self)@;
            assert(s.skip(8).skip(8) =~= s.skip(16));
            assert(s.take(8) + s.skip(8).take(8) =~= s.take(16));
            lemma_le_value_concat(s.take(8), s.skip(8).take(8));
            lemma_radix_values();
            assert(low | (high << 64) == low + 0x1_0000_0000_0000_0000 * high) by (bit_vector)
                requires
                    low < 0x1_0000_0000_0000_0000,
                    high < 0x1_0000_0000_0000_0000,
            ;
        }
        Some(low | (high << 64))
    }

    /// One variable-length integer, kept as far as it fits in 32 bits:
    /// each byte gives seven bits, shifted up by seven more than the byte
    /// before it, and bits shifted past the width are lost. Fails where no
    /// byte with the high bit clear is left.
    pub fn read_var_u32(&mut self) -> (r: Option<u32>)
        ensures
            match r {
                Some(v) => varint_complete(old(self)@) && v == varint_value(old(self)@)
                    % 0x1_0000_0000 && final(self)@ == old(self)@.skip(
                    varint_len(old(self)@) as int,
                ),
                None => !varint_complete(old(self)@) && final(self)@.len() == 0,
            },
    {
        let mut result: u32 = 0;
        let mut shift: u32 = 0;
        let ghost start = self@;
        let ghost mut count: nat = 0;
        let ghost mut acc: nat = 0;
        proof {
            lemma_group_weight(0);
            assert(start.skip(0) =~= start);
        }
        loop
            invariant
                start == old(self)@,
                count <= start.len(),
                self@ == start.skip(count as int),
                continuation_run(start) == count + continuation_run(self@),
                varint_value(start) == acc + pow2(7 * count) * varint_value(self@),
                acc < pow2(7 * count),
                result == acc % 0x1_0000_0000,
                shift == (if count < 5 { 7 * count } else { 35 }),
            decreases start.len() - count,
        {
            let ghost before = self@;
            let byte: u8 = self.read_u8()?;
            let chunk: u32 = (byte & 0x7f) as u32;
            proof {
                assert(byte & 0x7f == byte % 0x80) by (bit_vector);
                assert((byte & 0x80 == 0) == (byte < 0x80)) by (bit_vector);
                assert(before.skip(1) =~= start.skip(count as int + 1));
                lemma_group_weight(count);
                lemma2_to64();
                let weight = pow2(7 * count);
                let next = varint_value(self@);
                assert(acc + chunk * weight < 0x80 * weight) by (nonlinear_arith)
                    requires
                        acc < weight,
                        chunk < 0x80,
                ;
                if byte >= 0x80 {
                    assert(weight * ((byte - 0x80) + 0x80 * next) == chunk * weight + (0x80
                        * weight) * next) by (nonlinear_arith)
                        requires
                            chunk == byte - 0x80,
                    ;
                } else {
                    assert(weight * byte == chunk * weight) by (nonlinear_arith)
                        requires
                            chunk == byte,
                    ;
                }
                if shift < 32 {
                    lemma_pow2_strictly_increases(7 * count, 32);
                    lemma_small_mod(acc, 0x1_0000_0000);
                    lemma_group_into_u32(result, chunk, shift as u32, acc);
                } else {
                    lemma_group_dropped(acc, chunk as nat, 7 * count, 32);
                }
                acc = acc + (chunk as nat) * weight;
                count = count + 1;
            }
            if shift < 32 {
                result |= chunk << shift;
                shift += 7;
            }
            if byte & 0x80 == 0 {
                return Some(result);
            }
        }
    }

    /// One variable-length integer, kept as far as it fits in 64 bits:
    /// each byte gives seven bits, shifted up by seven more than the byte
    /// before it, and bits shifted past the width are lost. Fails where no
    /// byte with the high bit clear is left.
    pub fn read_var_u64(&mut self) -> (r: Option<u64>)
        ensures
            match r {
                Some(v) => varint_complete(old(self)@) && v == varint_value(old(self)@)
                    % 0x1_0000_0000_0000_0000 && final(self)@ == old(self)@.skip(
                    varint_len(old(self)@) as int,
                ),
                None => !varint_complete(old(self)@) && final(self)@.len() == 0,
            },
    {
        let mut result: u64 = 0;
        let mut shift: u32 = 0;
        let ghost start = self@;
        let ghost mut count: nat = 0;
        let ghost mut acc: nat = 0;
        proof {
            lemma_group_weight(0);
            assert(start.skip(0) =~= start);
        }
        loop
            invariant
                start == old(self)@,
                count <= start.len(),
                self@ == start.skip(count as int),
                continuation_run(start) == count + continuation_run(self@),
                varint_value(start) == acc + pow2(7 * count) * varint_value(self@),
                acc < pow2(7 * count),
                result == acc % 0x1_0000_0000_0000_0000,
                shift == (if count < 10 { 7 * count } else { 70 }),
            decreases start.len() - count,
        {
            let ghost before = self@;
            let byte: u8 = self.read_u8()?;
            let chunk: u64 = (byte & 0x7f) as u64;
            proof {
                assert(byte & 0x7f == byte % 0x80) by (bit_vector);
                assert((byte & 0x80 == 0) == (byte < 0x80)) by (bit_vector);
                assert(before.skip(1) =~= start.skip(count as int + 1));
                lemma_group_weight(count);
                lemma2_to64();
                let weight = pow2(7 * count);
                let next = varint_value(self@);
                assert(acc + chunk * weight < 0x80 * weight) by (nonlinear_arith)
                    requires
                        acc < weight,
                        chunk < 0x80,
                ;
                if byte >= 0x80 {
                    assert(weight * ((byte - 0x80) + 0x80 * next) == chunk * weight + (0x80
                        * weight) * next) by (nonlinear_arith)
                        requires
                            chunk == byte - 0x80,
                    ;
                } else {
                    assert(weight * byte == chunk * weight) by (nonlinear_arith)
                        requires
                            chunk == byte,
                    ;
                }
                if shift < 64 {
                    lemma_pow2_strictly_increases(7 * count, 64);
                    lemma_small_mod(acc, 0x1_0000_0000_0000_0000);
                    lemma_group_into_u64(result, chunk, shift as u64, acc);
                } else {
                    lemma_group_dropped(acc, chunk as nat, 7 * count, 64);
                }
                acc = acc + (chunk as nat) * weight;
                count = count + 1;
            }
            if shift < 64 {
                result |= chunk << shift;
                shift += 7;
            }
            if byte & 0x80 == 0 {
                return Some(result);
            }
        }
    }

    /// Exactly `length` bytes, or nothing where fewer are left.
    pub fn read_bytes(&mut self, length: usize) -> (r: Option<Vec<u8>>)
        ensures
            match r {
                Some(bytes) => length <= old(self)@.len() && bytes@ == old(self)@.take(
                    length as int,
                ) && final(self)@ == old(self)@.skip(length as int),
                None => length > old(self)@.len() && final(self)@.len() == 0,
            },
    {
        let mut bytes: Vec<u8> = Vec::new();
        let mut count: usize = 0;
        while count < length
            invariant
                count <= length,
                count <= old(self)@.len(),
                bytes@ == old(self)@.take(count as int),
                self@ == old(self)@.skip(count as int),
            decreases length - count,
        {
            let byte: u8 = self.read_u8()?;
            bytes.push(byte);
            count += 1;
            proof {
                let s = old(self)@;
                assert(s.skip(count - 1).skip(1) =~= s.skip(count as int));
                assert(s.take(count - 1).push(s[count - 1]) =~= s.take(count as int));
            }
        }
        Some(bytes)
    }
}

/// An append-only byte sequence. Every write adds bytes at the end and
/// changes none that are there.
pub struct BufferWriter {
    buffer: Vec<u8>,
}

impl View for BufferWriter {
    type V = Seq<u8>;

    /// The bytes written so far.
    closed spec fn view(&self) -> Seq<u8> {
        self.buffer@
    }
}

impl BufferWriter {
    /// A writer that holds no bytes yet.
    pub fn new() -> (r: BufferWriter)
        ensures
            r@ == Seq::<u8>::empty(),
    {
        BufferWriter { buffer: Vec::new() }
    }

    /// The bytes written so far.
    pub fn get_buffer(&self) -> (r: &Vec<u8>)
        ensures
            r@ == self@,
    {
        &self.buffer
    }

    /// Ends the writing and hands out the bytes.
    pub fn close(self) -> (r: Vec<u8>)
        ensures
            r@ == self@,
    {
        self.buffer
    }

    /// One byte.
    pub fn write_u8(&mut self, byte: u8)
        ensures
            final(self)@ == old(self)@.push(byte),
    {
        self.buffer.push(byte);
    }

    /// Two bytes, least significant first.
    pub fn write_u16(&mut self, value: u16)
        ensures
            final(self)@ == old(self)@ + le_bytes(value as nat, 2),
    {
        let low: u8 = (value & 0xff) as u8;
        let high: u8 = (value >> 8) as u8;
        self.write_u8(low);
        self.write_u8(high);
        proof {
            assert(low == value % 256 && high == value / 256) by (bit_vector)
                requires
                    low == (value & 0xff) as u8,
                    high == (value >> 8) as u8,
            ;
            reveal_with_fuel(le_bytes, 3);
            assert(le_bytes(value as nat, 2) =~= seq![low, high]);
            assert(self@ =~= old(self)@ + seq![low, high]);
        }
    }

    /// Four bytes, least significant first: the low half, then the high.
    pub fn write_u32(&mut self, value: u32)
        ensures
            final(self)@ == old(self)@ + le_bytes(value as nat, 4),
    {
        let low: u16 = (value & 0xffff) as u16;
        let high: u16 = (value >> 16) as u16;
        self.write_u16(low);
        self.write_u16(high);
        proof {
            assert(low == value % 0x1_0000 && high == value / 0x1_0000) by (bit_vector)
                requires
                    low == (value & 0xffff) as u16,
                    high == (value >> 16) as u16,
            ;
            lemma_radix_values();
            lemma_le_bytes_split(value as nat, 2, 2);
            assert(self@ =~= old(self)@ + (le_bytes(low as nat, 2) + le_bytes(high as nat, 2)));
        }
    }

    /// Eight bytes, least significant first: the low half, then the high.
    pub fn write_u64(&mut self, value: u64)
        ensures
            final(self)@ == old(self)@ + le_bytes(value as nat, 8),
    {
        let low: u32 = (value & 0xffffffff) as u32;
        let high: u32 = (value >> 32) as u32;
        self.write_u32(low);
        self.write_u32(high);
        proof {
            assert(low == value % 0x1_0000_0000 && high == value / 0x1_0000_0000)
                by (bit_vector)
                requires
                    low == (value & 0xffffffff) as u32,
                    high == (value >> 32) as u32,
            ;
            lemma_radix_values();
            lemma_le_bytes_split(value as nat, 4, 4);
            assert(self@ =~= old(self)@ + (le_bytes(low as nat, 4) + le_bytes(high as nat, 4)));
        }
    }

    /// Sixteen bytes, least significant first: the low half, then the high.
    pub fn write_u128(&mut self, value: u128)
        ensures
            final(self)@ == old(self)@ + le_bytes(value as nat, 16),
    {
        let low: u64 = (value & 0xffffffffffffffff) as u64;
        let high: u64 = (value >> 64) as u64;
        self.write_u64(low);
        self.write_u64(high);
        proof {
            assert(low == value % 0x1_0000_0000_0000_0000 && high == value
                / 0x1_0000_0000_0000_0000) by (bit_vector)
                requires
                    low == (value & 0xffffffffffffffff) as u64,
                    high == (value >> 64) as u64,
            ;
            lemma_radix_values();
            lemma_le_bytes_split(value as nat, 8, 8);
            assert(self@ =~= old(self)@ + (le_bytes(low as nat, 8) + le_bytes(high as nat, 8)));
        }
    }

    /// One variable-length integer: seven bits a byte from the low end, the
    /// high bit set on every byte but the last.
    pub fn write_var(&mut self, value: u64)
        ensures
            final(self)@ == old(self)@ + varint_bytes(value as nat),
    {
        let mut left: u64 = value;
        loop
            invariant_except_break
                self@ + varint_bytes(left as nat) == old(self)@ + varint_bytes(value as nat),
            ensures
                self@ == old(self)@ + varint_bytes(value as nat),
            decreases left,
        {
            let ghost written = self@;
            let ghost before = left;
            let mut byte: u8 = (left & 0x7f) as u8;
            left >>= 7;
            if left != 0 {
                byte |= 0x80;
            }
            self.write_u8(byte);
            proof {
                assert(left == before / 0x80 && (left != 0) == (before >= 0x80) && (before
                    & 0x7f) as u8 == before % 0x80 && ((before & 0x7f) as u8 | 0x80) == before
                    % 0x80 + 0x80) by (bit_vector)
                    requires
                        left == before >> 7,
                ;
                if left != 0 {
                    assert(written.push(byte) + varint_bytes(left as nat) =~= written + (seq![
                        byte,
                    ] + varint_bytes(left as nat)));
                } else {
                    assert(written.push(byte) =~= written + seq![byte]);
                }
            }
            if left == 0 {
                break ;
            }
        }
    }

    /// The bytes of `bytes` as they are.
    pub fn write_bytes(&mut self, bytes: &[u8])
        ensures
            final(self)@ == old(self)@ + bytes@,
    {
        let mut count: usize = 0;
        while count < bytes.len()
            invariant
                count <= bytes@.len(),
                self@ == old(self)@ + bytes@.take(count as int),
            decreases bytes@.len() - count,
        {
            self.write_u8(bytes[count]);
            count += 1;
            proof {
                assert(bytes@.take(count - 1).push(bytes@[count - 1]) =~= bytes@.take(
                    count as int,
                ));
                assert(old(self)@ + bytes@.take(count - 1).push(bytes@[count - 1]) =~= (old(
                    self,
                )@ + bytes@.take(count - 1)).push(bytes@[count - 1]));
            }
        }
        assert(bytes@.take(count as int) =~= bytes@);
    }
}

} // verus!
