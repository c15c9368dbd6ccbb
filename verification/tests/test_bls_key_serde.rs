use sc_delegation::codec::DecodeError;
use sc_delegation::pool::bls_key::{top_decode_keys, top_encode_keys, zip_vectors, BLSKey, BLS_KEY_BYTE_LENGTH};

fn key_of(byte: u8) -> BLSKey {
    BLSKey::from_bytes(&vec![byte; BLS_KEY_BYTE_LENGTH]).unwrap()
}

#[test]
fn test_bls_serde() {
    let bls_key = key_of(4);
    let expected_bytes: Vec<u8> = vec![4u8; BLS_KEY_BYTE_LENGTH];

    // serialize
    let mut serialized_bytes: Vec<u8> = Vec::new();
    bls_key.dep_encode_to(&mut serialized_bytes);
    assert_eq!(serialized_bytes, expected_bytes);

    // deserialize
    let (deserialized, pos) = BLSKey::dep_decode(&serialized_bytes, 0).unwrap();
    assert_eq!(pos, BLS_KEY_BYTE_LENGTH);
    assert_eq!(deserialized.to_vec(), bls_key.to_vec());
}

#[test]
fn test_vec_bls_serde() {
    let mut bls_vec: Vec<BLSKey> = Vec::new();
    for _ in 0..3 {
        bls_vec.push(key_of(4));
    }
    let expected_bytes: Vec<u8> = vec![4u8; BLS_KEY_BYTE_LENGTH * 3];

    // serialize
    let serialized_bytes = top_encode_keys(&bls_vec);
    assert_eq!(serialized_bytes, expected_bytes);

    // deserialize
    let deserialized = top_decode_keys(&serialized_bytes).unwrap();
    assert_eq!(deserialized.len(), bls_vec.len());
    for i in 0..3 {
        assert_eq!(deserialized[i].to_vec(), bls_vec[i].to_vec());
    }
}

#[test]
fn bls_key_wrong_length_is_refused() {
    assert!(matches!(BLSKey::from_bytes(&vec![1u8; 95]), Err("bad BLS key length")));
    assert!(matches!(BLSKey::from_bytes(&vec![1u8; 97]), Err("bad BLS key length")));
    assert!(BLSKey::from_bytes(&vec![1u8; 96]).is_ok());
}

#[test]
fn bls_key_list_with_partial_block_is_refused() {
    let bytes: Vec<u8> = vec![7u8; BLS_KEY_BYTE_LENGTH + 10];
    assert!(matches!(top_decode_keys(&bytes), Err(DecodeError::InputTooShort)));
    assert_eq!(top_decode_keys(&Vec::new()).unwrap().len(), 0);
    assert!(matches!(BLSKey::dep_decode(&vec![0u8; 50], 0), Err(DecodeError::InputTooShort)));
}

#[test]
fn bls_keys_roundtrip_distinct_keys() {
    let keys = vec![key_of(1), key_of(2), key_of(3)];
    let bytes = top_encode_keys(&keys);
    assert_eq!(bytes.len(), 3 * BLS_KEY_BYTE_LENGTH);
    assert_eq!(bytes[0], 1);
    assert_eq!(bytes[BLS_KEY_BYTE_LENGTH], 2);
    assert_eq!(bytes[2 * BLS_KEY_BYTE_LENGTH], 3);
    let back = top_decode_keys(&bytes).unwrap();
    for i in 0..3 {
        assert_eq!(back[i].to_vec(), keys[i].to_vec());
        assert!(back[i].same_key(&keys[i]));
    }
    assert!(!back[0].same_key(&keys[1]));
}

#[test]
fn zip_vectors_alternates() {
    let first = vec![vec![1u8], vec![2u8]];
    let second = vec![vec![10u8], vec![20u8]];
    let zipped = zip_vectors(first, second);
    assert_eq!(zipped, vec![vec![1u8], vec![10u8], vec![2u8], vec![20u8]]);
    assert_eq!(zip_vectors(Vec::new(), Vec::new()).len(), 0);
}
