use tinydb::varint::{read_u64, write_u64, MAX_VARINT_LEN_U64};

#[test]
fn test_write_u64() {
    // (input u64 , expected bytes)
    let tests = vec![
        (0u64, vec![0]),
        (100u64, vec![0b0110_0100]),
        (129u64, vec![0b1000_0001, 0b1]),
        (258u64, vec![0b1000_0010, 0b10]),
        (58962304u64, vec![0b1000_0000, 0b1110_0011, 0b1000_1110, 0b1_1100]),
    ];
    for (input, results) in tests {
        let mut bytes = Vec::with_capacity(MAX_VARINT_LEN_U64);
        for _ in 0..results.len() {
            bytes.push(0);
        }
        let written = write_u64(&mut bytes, input);
        assert_eq!(written, results.len());
        for (i, b) in bytes.iter().enumerate() {
            assert_eq!(results[i], *b);
        }
    }
}

#[test]
fn test_read_u64() {
    let mut test_data = vec![
        0,
        0b110_0100,
        0b1000_0001, 0b1,
        0b1000_0010, 0b10,
        0b1000_0000, 0b1110_0011, 0b1000_1110, 0b1_1100,
        0b1100_1110, 0b1000_0001, 0b1011_0101, 0b1101_1001, 0b1111_0110, 0b1010_1100, 0b1100_1110,
        0b1000_0001, 0b1011_0101, 0b1101_1001, 0b1111_0110, 0b1010_1100,
    ];
    let expects = vec![
        (0u64, 1),
        (100u64, 1),
        (129u64, 2),
        (258u64, 2),
        (58962304u64, 4),
        (0u64, -10), // the value overflows 64 bits
    ];
    let mut idx = 0;
    while !test_data.is_empty() {
        let (i, size) = read_u64(&test_data);
        if size < 0 {
            test_data.drain(0..test_data.len());
        } else {
            test_data.drain(0..size as usize);
        }
        let (expect_uint, expect_size) = expects[idx];
        assert_eq!(i, expect_uint);
        assert_eq!(size, expect_size as isize);
        idx += 1;
    }
}

#[test]
fn varint_round_trip_edges() {
    for n in [0u64, 127, 128, 16383, 16384, u64::MAX] {
        let mut bytes = vec![0xAAu8; MAX_VARINT_LEN_U64 + 2];
        let written = write_u64(&mut bytes, n);
        assert_eq!(read_u64(&bytes[..written]), (n, written as isize));
        assert_eq!(bytes[written], 0xAA);
    }
    let mut bytes = vec![0u8; 2];
    assert_eq!(write_u64(&mut bytes, 128), 2);
    assert_eq!(bytes, vec![0x80, 0x01]);
}

#[test]
fn varint_truncated_input() {
    assert_eq!(read_u64(&[0x80, 0x80]), (0, 0));
    assert_eq!(read_u64(&[]), (0, 0));
}
