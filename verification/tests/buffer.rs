use proto_tools::buffer_tools::{BufferReader, BufferWriter};

fn encoded(value: u64) -> Vec<u8> {
    let mut writer = BufferWriter::new();
    writer.write_var(value);
    writer.close()
}

#[test]
fn varint_bytes_are_little_endian_groups_of_seven_bits() {
    assert_eq!(encoded(0), vec![0x00]);
    assert_eq!(encoded(1), vec![0x01]);
    assert_eq!(encoded(127), vec![0x7f]);
    assert_eq!(encoded(128), vec![0x80, 0x01]);
    assert_eq!(encoded(300), vec![0xac, 0x02]);
    assert_eq!(encoded(16383), vec![0xff, 0x7f]);
    assert_eq!(encoded(16384), vec![0x80, 0x80, 0x01]);
    assert_eq!(encoded(u32::MAX as u64), vec![0xff, 0xff, 0xff, 0xff, 0x0f]);
    assert_eq!(
        encoded(u64::MAX),
        vec![0xff, 0xff, 0xff, 0xff, 0xff, 0xff, 0xff, 0xff, 0xff, 0x01]
    );
}

#[test]
fn varint_round_trip_u64() {
    let values: [u64; 8] = [0, 1, 127, 128, 16383, 16384, u32::MAX as u64, u64::MAX];
    for value in values {
        let mut reader = BufferReader::new(encoded(value));
        assert_eq!(reader.read_var_u64(), Some(value));
        assert!(reader.is_empty());
    }
}

#[test]
fn varint_round_trip_u32() {
    let values: [u32; 7] = [0, 1, 127, 128, 16383, 16384, u32::MAX];
    for value in values {
        let mut reader = BufferReader::new(encoded(value as u64));
        assert_eq!(reader.read_var_u32(), Some(value));
        assert!(reader.is_empty());
    }
}

#[test]
fn varint_read_stops_at_the_closing_byte() {
    let mut reader = BufferReader::new(vec![0xac, 0x02, 0x07, 0x80, 0x01]);
    assert_eq!(reader.read_var_u32(), Some(300));
    assert_eq!(reader.remaining(), 3);
    assert_eq!(reader.read_var_u64(), Some(7));
    assert_eq!(reader.read_var_u64(), Some(128));
    assert!(reader.is_empty());
}

#[test]
fn varint_without_closing_byte_fails_and_leaves_nothing() {
    let mut reader = BufferReader::new(vec![0x80, 0x80, 0xff]);
    assert_eq!(reader.read_var_u32(), None);
    assert!(reader.is_empty());

    let mut reader = BufferReader::new(vec![0x80]);
    assert_eq!(reader.read_var_u64(), None);
    assert!(reader.is_empty());

    let mut reader = BufferReader::new(Vec::new());
    assert_eq!(reader.read_var_u32(), None);
    assert_eq!(reader.read_var_u64(), None);
}

#[test]
fn varint_bits_past_the_width_are_lost() {
    // 2^32 - 1 in the low 32 bits, three more bits above them.
    let mut reader = BufferReader::new(vec![0xff, 0xff, 0xff, 0xff, 0x7f]);
    assert_eq!(reader.read_var_u32(), Some(u32::MAX));
    assert!(reader.is_empty());

    // A sixth group weighs 2^35.
    let mut reader = BufferReader::new(vec![0x81, 0x80, 0x80, 0x80, 0x80, 0x01, 0x2a]);
    assert_eq!(reader.read_var_u32(), Some(1));
    assert_eq!(reader.read_u8(), Some(0x2a));

    // The same bytes fit in 64 bits.
    let mut reader = BufferReader::new(vec![0x81, 0x80, 0x80, 0x80, 0x80, 0x01]);
    assert_eq!(reader.read_var_u64(), Some((1u64 << 35) + 1));

    // The tenth group keeps one bit, an eleventh none.
    let mut reader =
        BufferReader::new(vec![0x80, 0x80, 0x80, 0x80, 0x80, 0x80, 0x80, 0x80, 0x80, 0x7f]);
    assert_eq!(reader.read_var_u64(), Some(1u64 << 63));
    let mut reader = BufferReader::new(vec![
        0x85, 0x80, 0x80, 0x80, 0x80, 0x80, 0x80, 0x80, 0x80, 0x80, 0x01,
    ]);
    assert_eq!(reader.read_var_u64(), Some(5));
    assert!(reader.is_empty());
}

#[test]
fn fixed_width_bytes_are_little_endian() {
    let mut writer = BufferWriter::new();
    writer.write_u8(0xab);
    writer.write_u16(0x1234);
    writer.write_u32(0x1234_5678);
    writer.write_u64(0x0102_0304_0506_0708);
    writer.write_u128(0x0102_0304_0506_0708_090a_0b0c_0d0e_0f10);
    assert_eq!(
        writer.close(),
        vec![
            0xab, 0x34, 0x12, 0x78, 0x56, 0x34, 0x12, 0x08, 0x07, 0x06, 0x05, 0x04, 0x03, 0x02,
            0x01, 0x10, 0x0f, 0x0e, 0x0d, 0x0c, 0x0b, 0x0a, 0x09, 0x08, 0x07, 0x06, 0x05, 0x04,
            0x03, 0x02, 0x01,
        ]
    );
}

#[test]
fn fixed_width_reads_are_little_endian() {
    let mut reader = BufferReader::new(vec![
        0xab, 0x34, 0x12, 0x78, 0x56, 0x34, 0x12, 0x08, 0x07, 0x06, 0x05, 0x04, 0x03, 0x02, 0x01,
        0x10, 0x0f, 0x0e, 0x0d, 0x0c, 0x0b, 0x0a, 0x09, 0x08, 0x07, 0x06, 0x05, 0x04, 0x03, 0x02,
        0x01,
    ]);
    assert_eq!(reader.read_u8(), Some(0xab));
    assert_eq!(reader.read_u16(), Some(0x1234));
    assert_eq!(reader.read_u32(), Some(0x1234_5678));
    assert_eq!(reader.read_u64(), Some(0x0102_0304_0506_0708));
    assert_eq!(
        reader.read_u128_le(),
        Some(0x0102_0304_0506_0708_090a_0b0c_0d0e_0f10)
    );
    assert!(reader.is_empty());
}

#[test]
fn fixed_width_round_trip_u8() {
    for value in [0u8, 1, 0x7f, 0x80, u8::MAX] {
        let mut writer = BufferWriter::new();
        writer.write_u8(value);
        let mut reader = BufferReader::new(writer.close());
        assert_eq!(reader.read_u8(), Some(value));
        assert!(reader.is_empty());
    }
}

#[test]
fn fixed_width_round_trip_u16() {
    for value in [0u16, 1, 0xff, 0x100, 0xabcd, u16::MAX] {
        let mut writer = BufferWriter::new();
        writer.write_u16(value);
        let mut reader = BufferReader::new(writer.close());
        assert_eq!(reader.read_u16(), Some(value));
        assert!(reader.is_empty());
    }
}

#[test]
fn fixed_width_round_trip_u32() {
    for value in [0u32, 1, 0xffff, 0x1_0000, 0xdead_beef, u32::MAX] {
        let mut writer = BufferWriter::new();
        writer.write_u32(value);
        let mut reader = BufferReader::new(writer.close());
        assert_eq!(reader.read_u32(), Some(value));
        assert!(reader.is_empty());
    }
}

#[test]
fn fixed_width_round_trip_u64() {
    for value in [0u64, 1, 0xffff_ffff, 0x1_0000_0000, 0xdead_beef_cafe_f00d, u64::MAX] {
        let mut writer = BufferWriter::new();
        writer.write_u64(value);
        let mut reader = BufferReader::new(writer.close());
        assert_eq!(reader.read_u64(), Some(value));
        assert!(reader.is_empty());
    }
}

#[test]
fn fixed_width_round_trip_u128() {
    for value in [
        0u128,
        1,
        u64::MAX as u128,
        (u64::MAX as u128) + 1,
        0x0123_4567_89ab_cdef_fedc_ba98_7654_3210,
        u128::MAX,
    ] {
        let mut writer = BufferWriter::new();
        writer.write_u128(value);
        let mut reader = BufferReader::new(writer.close());
        assert_eq!(reader.read_u128_le(), Some(value));
        assert!(reader.is_empty());
    }
}

#[test]
fn short_input_fails_every_width_and_leaves_nothing() {
    let mut reader = BufferReader::new(Vec::new());
    assert_eq!(reader.read_u8(), None);

    let mut reader = BufferReader::new(vec![1]);
    assert_eq!(reader.read_u16(), None);
    assert!(reader.is_empty());

    let mut reader = BufferReader::new(vec![1, 2, 3]);
    assert_eq!(reader.read_u32(), None);
    assert!(reader.is_empty());
    assert_eq!(reader.read_u8(), None);

    let mut reader = BufferReader::new(vec![1, 2, 3, 4, 5, 6, 7]);
    assert_eq!(reader.read_u64(), None);
    assert!(reader.is_empty());

    let mut reader = BufferReader::new(vec![0; 15]);
    assert_eq!(reader.read_u128_le(), None);
    assert!(reader.is_empty());
}

#[test]
fn read_bytes_takes_exactly_what_is_asked() {
    let mut reader = BufferReader::new(vec![1, 2, 3, 4, 5]);
    assert_eq!(reader.read_bytes(0), Some(Vec::new()));
    assert_eq!(reader.remaining(), 5);
    assert_eq!(reader.read_bytes(2), Some(vec![1, 2]));
    assert_eq!(reader.read_bytes(3), Some(vec![3, 4, 5]));
    assert!(reader.is_empty());
    assert_eq!(reader.read_bytes(0), Some(Vec::new()));
    assert_eq!(reader.read_bytes(1), None);
}

#[test]
fn read_bytes_fails_where_fewer_are_left() {
    let mut reader = BufferReader::new(vec![1, 2, 3]);
    assert_eq!(reader.read_bytes(4), None);
    assert!(reader.is_empty());
    assert_eq!(reader.remaining(), 0);
}

#[test]
fn is_empty_follows_the_cursor() {
    let mut reader = BufferReader::new(vec![9]);
    assert!(!reader.is_empty());
    assert_eq!(reader.remaining(), 1);
    assert_eq!(reader.read_u8(), Some(9));
    assert!(reader.is_empty());
    assert!(BufferReader::new(Vec::new()).is_empty());
}

#[test]
fn writer_only_appends() {
    let mut writer = BufferWriter::new();
    assert!(writer.get_buffer().is_empty());
    writer.write_bytes(&[1, 2, 3]);
    assert_eq!(writer.get_buffer(), &vec![1, 2, 3]);
    writer.write_var(300);
    assert_eq!(writer.get_buffer(), &vec![1, 2, 3, 0xac, 0x02]);
    writer.write_bytes(&[]);
    writer.write_u16(0x0201);
    assert_eq!(writer.close(), vec![1, 2, 3, 0xac, 0x02, 0x01, 0x02]);
}
