//! Byte serialization of integer vectors.

use harden::vec_utils::{vec_u32_to_bytes, vec_u64_to_bytes};

#[test]
fn combine_u32_works() {
    assert_eq!(vec_u32_to_bytes(&[]), vec![]);
    assert_eq!(
        vec_u32_to_bytes(&[0x76543210, 0xcafed00d]),
        vec![0x10, 0x32, 0x54, 0x76, 0x0d, 0xd0, 0xfe, 0xca]
    );
}

#[test]
fn combine_u64_works() {
    assert_eq!(vec_u64_to_bytes(&[]), vec![]);
    assert_eq!(
        vec_u64_to_bytes(&[0xcafed00d76543210]),
        vec![0x10, 0x32, 0x54, 0x76, 0x0d, 0xd0, 0xfe, 0xca]
    );
}
