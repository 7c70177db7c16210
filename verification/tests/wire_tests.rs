use spartan_plot::wire::{
    multihash_code, u64_from_be_bytes, u64_from_le_bytes, u64_to_be_bytes, u64_to_le_bytes,
};

#[test]
fn tag_big_endian_round_trip() {
    let tag: u64 = 0x0102_0304_0506_0708;
    let bytes = u64_to_be_bytes(tag);
    assert_eq!(bytes, vec![0x01, 0x02, 0x03, 0x04, 0x05, 0x06, 0x07, 0x08]);
    assert_eq!(u64_from_be_bytes(&bytes), tag);
}

#[test]
fn piece_index_little_endian_round_trip() {
    let index: u64 = 0x0102_0304_0506_0708;
    let bytes = u64_to_le_bytes(index);
    assert_eq!(bytes, vec![0x08, 0x07, 0x06, 0x05, 0x04, 0x03, 0x02, 0x01]);
    assert_eq!(u64_from_le_bytes(&bytes), index);
}

#[test]
fn multihash_code_of_well_formed_key() {
    // Code 0x12, digest size 2, two digest bytes.
    assert_eq!(multihash_code(&vec![0x12, 0x02, 0xAA, 0xBB]), Some(0x12));
    // A two-byte varint code: 0x0195 is 0x95 | 0x80, 0x03.
    assert_eq!(multihash_code(&vec![0x95, 0x03, 0x01, 0xCC]), Some(0x195));
}

#[test]
fn multihash_code_rejects_malformed_keys() {
    // Digest shorter than its declared size.
    assert_eq!(multihash_code(&vec![0x12, 0x03, 0xAA]), None);
    // Trailing bytes past the digest.
    assert_eq!(multihash_code(&vec![0x12, 0x01, 0xAA, 0xBB]), None);
    // A varint cut off by the end of the key.
    assert_eq!(multihash_code(&vec![0x80]), None);
    assert_eq!(multihash_code(&Vec::new()), None);
}
