use uleb128::{
    max_value, uleb128_u32_len, uleb128_u64_len, ReadULeb128Ext, WriteULeb128Ext,
    ULEB128_U32_MAX_LENGTH, ULEB128_U64_MAX_LENGTH,
};

#[test]
fn u32_len_examples() {
    assert_eq!(1, uleb128_u32_len(127));
    assert_eq!(2, uleb128_u32_len(128));
}

#[test]
fn u64_len_examples() {
    assert_eq!(5, uleb128_u64_len(34_359_738_367));
    assert_eq!(6, uleb128_u64_len(34_359_738_368));
}

#[test]
fn u32_len_at_every_threshold() {
    assert_eq!(1, uleb128_u32_len(0));
    assert_eq!(1, uleb128_u32_len(1));
    assert_eq!(2, uleb128_u32_len(16_383));
    assert_eq!(3, uleb128_u32_len(16_384));
    assert_eq!(3, uleb128_u32_len(2_097_151));
    assert_eq!(4, uleb128_u32_len(2_097_152));
    assert_eq!(4, uleb128_u32_len((1 << 28) - 1));
    assert_eq!(5, uleb128_u32_len(1 << 28));
    assert_eq!(5, uleb128_u32_len(u32::MAX));
}

#[test]
fn u64_len_at_every_threshold() {
    assert_eq!(1, uleb128_u64_len(0));
    for len in 1..10usize {
        let threshold = 1u64 << (7 * len);
        assert_eq!(len, uleb128_u64_len(threshold - 1));
        assert_eq!(len + 1, uleb128_u64_len(threshold));
    }
    assert_eq!(10, uleb128_u64_len(u64::MAX));
}

#[test]
fn max_value_is_a_power_of_128_less_one() {
    assert_eq!(max_value(0), 0);
    assert_eq!(max_value(1), 127);
    assert_eq!(max_value(2), 16_383);
    assert_eq!(max_value(4), 268_435_455);
    assert_eq!(max_value(5), 34_359_738_367);
    assert_eq!(max_value(9), 9_223_372_036_854_775_807);
}

#[test]
fn max_lengths() {
    assert_eq!(ULEB128_U32_MAX_LENGTH, 5);
    assert_eq!(ULEB128_U64_MAX_LENGTH, 10);
    assert_eq!(uleb128_u32_len(u32::MAX), ULEB128_U32_MAX_LENGTH);
    assert_eq!(uleb128_u64_len(u64::MAX), ULEB128_U64_MAX_LENGTH);
}

fn samples_u64() -> Vec<u64> {
    let mut samples = vec![0, 1, 300, 624_485, u32::MAX as u64, u64::MAX];
    for len in 1..10usize {
        let threshold = 1u64 << (7 * len);
        samples.push(threshold - 1);
        samples.push(threshold);
        samples.push(threshold + 1);
    }
    samples
}

#[test]
fn len_agrees_with_what_is_written() {
    for value in samples_u64() {
        let mut wtr = vec![];
        wtr.write_uleb128_u64(value).unwrap();
        assert_eq!(wtr.len(), uleb128_u64_len(value));
        if value <= u32::MAX as u64 {
            let mut wtr = vec![];
            wtr.write_uleb128_u32(value as u32).unwrap();
            assert_eq!(wtr.len(), uleb128_u32_len(value as u32));
        }
    }
}

#[test]
fn reading_what_was_written_gives_the_value_back() {
    for value in samples_u64() {
        let mut wtr = vec![];
        wtr.write_uleb128_u64(value).unwrap();
        wtr.push(0xFF);
        let mut rdr: &[u8] = &wtr;
        assert_eq!(Ok(value), rdr.read_uleb128_u64());
        assert_eq!(rdr, &[0xFF]);
        if value <= u32::MAX as u64 {
            let mut wtr = vec![];
            wtr.write_uleb128_u32(value as u32).unwrap();
            let mut rdr: &[u8] = &wtr;
            assert_eq!(Ok(value as u32), rdr.read_uleb128_u32());
            assert!(rdr.is_empty());
        }
    }
}
