use wav_writer::BinarySerialize;

#[test]
fn empty_sequence_takes_no_bytes() {
    let none: Vec<i16> = Vec::new();
    assert_eq!(none.needed_size(), 0);
    let mut empty: [u8; 0] = [];
    assert_eq!(none.serialize(&mut empty), Ok(()));
    let mut buf = [0xEEu8; 2];
    assert_eq!(none.serialize(&mut buf), Ok(()));
    assert_eq!(buf, [0xEE, 0xEE]);
}

#[test]
fn sequence_size_is_count_times_the_size_of_the_first() {
    assert_eq!(vec![1u8, 2, 3].needed_size(), 3);
    assert_eq!(vec![1u16, 2, 3].needed_size(), 6);
    assert_eq!(vec![1u32, 2, 3].needed_size(), 12);
    assert_eq!(vec![1i16, -2, 3, -4, 5].needed_size(), 10);
}

#[test]
fn sequence_writes_its_items_in_order() {
    let items: Vec<i16> = vec![0, -1, 32767, -32768];
    let mut buf = [0xEEu8; 8];
    assert_eq!(items.serialize(&mut buf), Ok(()));
    assert_eq!(buf, [0x00, 0x00, 0xFF, 0xFF, 0xFF, 0x7F, 0x00, 0x80]);
}

#[test]
fn sequence_of_u32_writes_four_bytes_each() {
    let items: Vec<u32> = vec![1, 0x0102_0304, u32::MAX];
    let mut buf = [0u8; 12];
    assert_eq!(items.serialize(&mut buf), Ok(()));
    assert_eq!(buf, [1, 0, 0, 0, 4, 3, 2, 1, 0xFF, 0xFF, 0xFF, 0xFF]);
}

#[test]
fn sequence_of_bytes_is_the_bytes() {
    let items: Vec<u8> = vec![0x64, 0x61, 0x74, 0x61];
    let mut buf = [0u8; 4];
    assert_eq!(items.serialize(&mut buf), Ok(()));
    assert_eq!(&buf, b"data");
}

#[test]
fn sequence_of_sequences_is_flattened() {
    let items: Vec<Vec<u16>> = vec![vec![1, 2], vec![3, 4], vec![5, 6]];
    assert_eq!(items.needed_size(), 12);
    let mut buf = [0xEEu8; 13];
    assert_eq!(items.serialize(&mut buf), Ok(()));
    assert_eq!(buf, [1, 0, 2, 0, 3, 0, 4, 0, 5, 0, 6, 0, 0xEE]);
}

#[test]
fn sequence_fails_on_a_region_one_byte_short() {
    let items: Vec<u16> = vec![1, 2, 3];
    let mut buf = [0xEEu8; 5];
    assert_eq!(items.serialize(&mut buf), Err(()));
    assert_eq!(buf, [0xEE; 5]);
    let mut buf = [0xEEu8; 6];
    assert_eq!(items.serialize(&mut buf), Ok(()));
    assert_eq!(buf, [1, 0, 2, 0, 3, 0]);
}

#[test]
fn sequence_leaves_the_rest_of_a_longer_region() {
    let items: Vec<i16> = vec![-2, 2];
    let mut buf = [0xEEu8; 7];
    assert_eq!(items.serialize(&mut buf), Ok(()));
    assert_eq!(buf, [0xFE, 0xFF, 0x02, 0x00, 0xEE, 0xEE, 0xEE]);
}

#[test]
fn sequence_agrees_with_the_standard_layout() {
    let items: Vec<i16> = (0..1000).map(|i: i32| (i * 67 - 30_000) as i16).collect();
    let mut expected: Vec<u8> = Vec::new();
    for x in &items {
        expected.extend_from_slice(&x.to_le_bytes());
    }
    let mut buf = vec![0u8; items.needed_size()];
    assert_eq!(items.serialize(&mut buf), Ok(()));
    assert_eq!(buf, expected);
}
