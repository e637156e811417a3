use cvar_patch::plain::{field, Plain, Scalar};

#[test]
fn integers_are_little_endian() {
    assert_eq!(u8::from_bytes(&[0xAB]), 0xAB);
    assert_eq!(u16::from_bytes(&[0x34, 0x12]), 0x1234);
    assert_eq!(u32::from_bytes(&[0x78, 0x56, 0x34, 0x12]), 0x1234_5678);
    assert_eq!(u64::from_bytes(&[8, 7, 6, 5, 4, 3, 2, 1]), 0x0102_0304_0506_0708);
    assert_eq!(u64::from_bytes(&[0xFF; 8]), u64::MAX);
}

#[test]
fn integers_come_back_from_their_bytes() {
    assert_eq!(0x5Au8.to_bytes(), vec![0x5A]);
    assert_eq!(0x1234u16.to_bytes(), vec![0x34, 0x12]);
    assert_eq!(0x1234_5678u32.to_bytes(), vec![0x78, 0x56, 0x34, 0x12]);
    assert_eq!(0x0102_0304_0506_0708u64.to_bytes(), vec![8, 7, 6, 5, 4, 3, 2, 1]);
    for value in [0u64, 1, 255, 256, 0xDEAD_BEEF, u64::MAX - 1, u64::MAX] {
        assert_eq!(u64::from_bytes(&value.to_bytes()), value);
        assert_eq!(value.to_bytes(), value.to_le_bytes().to_vec());
    }
}

#[test]
fn sizes_and_alignments_are_the_native_ones() {
    assert_eq!((u8::size_of(), u8::align_of()), (1, 1));
    assert_eq!((u16::size_of(), u16::align_of()), (2, 2));
    assert_eq!((u32::size_of(), u32::align_of()), (4, 4));
    assert_eq!((u64::size_of(), u64::align_of()), (8, 8));
}

#[test]
fn field_reads_at_an_offset() {
    let bytes = [0, 1, 2, 3, 4, 5];
    assert_eq!(field::<u16>(&bytes, 3), 0x0403);
    assert_eq!(field::<u32>(&bytes, 2), 0x0504_0302);
    assert_eq!(field::<u8>(&bytes, 5), 5);
}
