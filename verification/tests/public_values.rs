use openvm_profiler::public_values::{
    check_image, check_populated, decode_public_values, digests_match, OutputError, PublicValues,
    NUM_PUBLIC_VALUES, PV_HASH_LEN, PV_HASH_OFF,
};

const ABC_SHA256: [u8; 32] = [
    0xba, 0x78, 0x16, 0xbf, 0x8f, 0x01, 0xcf, 0xea, 0x41, 0x41, 0x40, 0xde, 0x5d, 0xae, 0x22,
    0x23, 0xb0, 0x03, 0x61, 0xa3, 0x96, 0x17, 0x7a, 0x9c, 0xb4, 0x10, 0xff, 0x61, 0xf2, 0x00,
    0x15, 0xad,
];

#[test]
fn decodes_pointer_size_and_digest() {
    let mut pvs = vec![0u8; NUM_PUBLIC_VALUES];
    pvs[0..4].copy_from_slice(&0x0012_3456u32.to_le_bytes());
    pvs[4..8].copy_from_slice(&0xdead_beefu32.to_le_bytes());
    for i in 0..PV_HASH_LEN {
        pvs[PV_HASH_OFF + i] = i as u8;
    }
    let pv = decode_public_values(&pvs);
    assert_eq!(pv.ptr, 0x0012_3456);
    assert_eq!(pv.size, 0xdead_beef);
    assert_eq!(pv.hash, (0..32u8).collect::<Vec<u8>>());
}

#[test]
fn unpopulated_values_are_refused() {
    let zero_size = PublicValues { ptr: 0x1000, size: 0, hash: vec![] };
    assert!(matches!(check_populated(&zero_size), Err(OutputError::NotPopulated { ptr: 0x1000, size: 0 })));
    let zero_ptr = PublicValues { ptr: 0, size: 10, hash: vec![] };
    assert!(matches!(check_populated(&zero_ptr), Err(OutputError::NotPopulated { ptr: 0, size: 10 })));
    let ok = PublicValues { ptr: 4, size: 10, hash: vec![] };
    assert!(check_populated(&ok).is_ok());
}

#[test]
fn image_matching_its_digest_is_accepted() {
    assert!(check_image(b"abc", &ABC_SHA256).is_ok());
}

#[test]
fn image_with_another_digest_is_refused() {
    let mut wrong = ABC_SHA256;
    wrong[31] ^= 1;
    match check_image(b"abc", &wrong) {
        Err(OutputError::HashMismatch { computed }) => assert_eq!(computed, ABC_SHA256.to_vec()),
        _ => panic!("mismatch not reported"),
    }
    assert!(check_image(b"abd", &ABC_SHA256).is_err());
    assert!(check_image(b"abc", &ABC_SHA256[..31]).is_err());
}

#[test]
fn digests_compare_bytewise() {
    assert!(digests_match(&[1, 2, 3], &[1, 2, 3]));
    assert!(!digests_match(&[1, 2, 3], &[1, 2, 4]));
    assert!(!digests_match(&[1, 2], &[1, 2, 3]));
    assert!(digests_match(&[], &[]));
}
