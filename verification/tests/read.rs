use uleb128::{EndOfInput, Error, ReadULeb128Ext};

#[test]
fn read_u32_two_bytes() {
    let mut rdr: &[u8] = &[0b1000_0000, 0b0000_0001];
    assert_eq!(128, rdr.read_uleb128_u32().unwrap());
}

#[test]
fn read_u32_three_numbers_in_a_row() {
    let bytes = vec![
        0b0111_1111, // 127
        0b1000_0000,
        0b0000_0001, // 128
        0b1000_0001,
        0b0000_0001, // 129
    ];
    let mut rdr: &[u8] = &bytes;
    assert_eq!(127, rdr.read_uleb128_u32().unwrap());
    assert_eq!(128, rdr.read_uleb128_u32().unwrap());
    assert_eq!(129, rdr.read_uleb128_u32().unwrap());
    assert!(rdr.is_empty());
}

#[test]
fn read_u32_largest_signed() {
    let mut rdr: &[u8] = &[0b1111_1111, 0b1111_1111, 0b1111_1111, 0b1111_1111, 0b0000_0111];
    assert_eq!(2_147_483_647, rdr.read_uleb128_u32().unwrap());
}

#[test]
fn read_u64_largest_signed() {
    let mut rdr: &[u8] = &[
        0b1111_1111,
        0b1111_1111,
        0b1111_1111,
        0b1111_1111,
        0b1111_1111,
        0b1111_1111,
        0b1111_1111,
        0b1111_1111,
        0b0111_1111,
    ];
    assert_eq!(9_223_372_036_854_775_807, rdr.read_uleb128_u64().unwrap());
}

#[test]
fn read_zero() {
    let mut rdr: &[u8] = &[0x00];
    assert_eq!(Ok(0), rdr.read_uleb128_u32());
    let mut rdr: &[u8] = &[0x00];
    assert_eq!(Ok(0), rdr.read_uleb128_u64());
}

#[test]
fn read_u32_scenario_300() {
    let mut rdr: &[u8] = &[0xAC, 0x02];
    assert_eq!(Ok(300), rdr.read_uleb128_u32());
}

#[test]
fn read_takes_one_integer_and_no_more() {
    let mut rdr: &[u8] = &[0xAC, 0x02, 0x7F, 0xFF];
    assert_eq!(Ok(300), rdr.read_uleb128_u32());
    assert_eq!(rdr, &[0x7F, 0xFF]);
    assert_eq!(Ok(127), rdr.read_uleb128_u64());
    assert_eq!(rdr, &[0xFF]);
}

#[test]
fn read_accepts_an_encoding_that_is_not_the_shortest() {
    let mut rdr: &[u8] = &[0x80, 0x00];
    assert_eq!(Ok(0), rdr.read_uleb128_u32());
    assert!(rdr.is_empty());
    let mut rdr: &[u8] = &[0x80, 0x00];
    assert_eq!(Ok(0), rdr.read_uleb128_u64());
    let mut rdr: &[u8] = &[0x81, 0x80, 0x80, 0x80, 0x00];
    assert_eq!(Ok(1), rdr.read_uleb128_u32());
    let mut rdr: &[u8] = &[0xFF, 0x80, 0x80, 0x80, 0x80, 0x80, 0x80, 0x80, 0x80, 0x00];
    assert_eq!(Ok(127), rdr.read_uleb128_u64());
}

#[test]
fn read_u32_rejects_six_continuing_bytes() {
    let mut rdr: &[u8] = &[0x80, 0x80, 0x80, 0x80, 0x80, 0x80];
    assert_eq!(Err(Error::LengthOverflow(5)), rdr.read_uleb128_u32());
    assert!(rdr.is_empty());
}

#[test]
fn read_u32_rejects_a_sixth_byte_whatever_it_is() {
    let mut rdr: &[u8] = &[0xFF, 0xFF, 0xFF, 0xFF, 0xFF, 0x01, 0x05];
    assert_eq!(Err(Error::LengthOverflow(5)), rdr.read_uleb128_u32());
    assert_eq!(rdr, &[0x05]);
}

#[test]
fn read_u64_rejects_eleven_continuing_bytes() {
    let mut rdr: &[u8] = &[0x80; 11];
    assert_eq!(Err(Error::LengthOverflow(10)), rdr.read_uleb128_u64());
    assert!(rdr.is_empty());
}

#[test]
fn read_u64_accepts_what_u32_rejects() {
    let mut rdr: &[u8] = &[0x80, 0x80, 0x80, 0x80, 0x80, 0x01];
    assert_eq!(Ok(1 << 35), rdr.read_uleb128_u64());
}

#[test]
fn read_fails_on_empty_input() {
    let mut rdr: &[u8] = &[];
    assert_eq!(Err(Error::Io(EndOfInput)), rdr.read_uleb128_u32());
    let mut rdr: &[u8] = &[];
    assert_eq!(Err(Error::Io(EndOfInput)), rdr.read_uleb128_u64());
}

#[test]
fn read_fails_on_input_that_ends_early() {
    let mut rdr: &[u8] = &[0x80];
    assert_eq!(Err(Error::Io(EndOfInput)), rdr.read_uleb128_u32());
    assert!(rdr.is_empty());
    let mut rdr: &[u8] = &[0xFF, 0xFF, 0xFF];
    assert_eq!(Err(Error::Io(EndOfInput)), rdr.read_uleb128_u64());
}

#[test]
fn read_fails_with_the_source_not_the_length_at_the_limit() {
    let mut rdr: &[u8] = &[0x80; 5];
    assert_eq!(Err(Error::Io(EndOfInput)), rdr.read_uleb128_u32());
    let mut rdr: &[u8] = &[0x80; 10];
    assert_eq!(Err(Error::Io(EndOfInput)), rdr.read_uleb128_u64());
}

#[test]
fn read_u32_accepts_five_bytes_and_drops_high_bits() {
    let mut rdr: &[u8] = &[0xFF, 0xFF, 0xFF, 0xFF, 0x0F];
    assert_eq!(Ok(u32::MAX), rdr.read_uleb128_u32());
    let mut rdr: &[u8] = &[0xFF, 0xFF, 0xFF, 0xFF, 0x7F];
    assert_eq!(Ok(u32::MAX), rdr.read_uleb128_u32());
    let mut rdr: &[u8] = &[0x80, 0x80, 0x80, 0x80, 0x70];
    assert_eq!(Ok(0), rdr.read_uleb128_u32());
    let mut rdr: &[u8] = &[0x80, 0x80, 0x80, 0x80, 0x11];
    assert_eq!(Ok(1 << 28), rdr.read_uleb128_u32());
}

#[test]
fn read_u64_accepts_ten_bytes_and_drops_high_bits() {
    let mut rdr: &[u8] = &[0xFF, 0xFF, 0xFF, 0xFF, 0xFF, 0xFF, 0xFF, 0xFF, 0xFF, 0x01];
    assert_eq!(Ok(u64::MAX), rdr.read_uleb128_u64());
    let mut rdr: &[u8] = &[0xFF, 0xFF, 0xFF, 0xFF, 0xFF, 0xFF, 0xFF, 0xFF, 0xFF, 0x7F];
    assert_eq!(Ok(u64::MAX), rdr.read_uleb128_u64());
    let mut rdr: &[u8] = &[0x80, 0x80, 0x80, 0x80, 0x80, 0x80, 0x80, 0x80, 0x80, 0x7E];
    assert_eq!(Ok(0), rdr.read_uleb128_u64());
}

#[test]
fn read_ignores_the_continuation_bit_in_the_value() {
    let mut rdr: &[u8] = &[0x81, 0x01];
    assert_eq!(Ok(129), rdr.read_uleb128_u32());
    let mut rdr: &[u8] = &[0xE5, 0x8E, 0x26];
    assert_eq!(Ok(624_485), rdr.read_uleb128_u64());
}
