use trustless_file_server::merkle::{FileMerkleTree, MerkleError};

fn content(n: usize) -> Vec<u8> {
    (0..n).map(|i| (i % 251) as u8).collect()
}

#[test]
fn round_trip_of_5000_bytes() {
    let t = FileMerkleTree::new(content(5000)).unwrap();
    let bytes = t.encode();
    assert_eq!(bytes.len(), 8 + 5000 + t.merkle_tree.len());
    let back = FileMerkleTree::decode(&bytes).unwrap();
    assert_eq!(back.file_bytes, t.file_bytes);
    assert_eq!(back.merkle_tree, t.merkle_tree);
    assert_eq!(back.pieces, 5);
    assert_eq!(back.encode(), bytes);
}

#[test]
fn header_is_little_endian() {
    let t = FileMerkleTree::new(content(1500)).unwrap();
    let bytes = t.encode();
    assert_eq!(bytes[..8].to_vec(), vec![0xdc, 0x05, 0, 0, 2, 0, 0, 0]);
    assert_eq!(bytes[8..1508].to_vec(), t.file_bytes);
    assert_eq!(bytes[1508..].to_vec(), t.merkle_tree);
}

#[test]
fn decode_takes_the_rest_as_tree() {
    let mut bytes = vec![3, 0, 0, 0, 7, 1, 0, 0, 10, 11, 12];
    let t = FileMerkleTree::decode(&bytes).unwrap();
    assert_eq!(t.file_bytes, vec![10, 11, 12]);
    assert_eq!(t.pieces, 263);
    assert!(t.merkle_tree.is_empty());
    bytes.extend_from_slice(&[1, 2, 3, 4, 5]);
    let t = FileMerkleTree::decode(&bytes).unwrap();
    assert_eq!(t.merkle_tree, vec![1, 2, 3, 4, 5]);
}

#[test]
fn truncated_input_is_refused() {
    assert_eq!(FileMerkleTree::decode(&[]), Err(MerkleError::TruncatedInput));
    assert_eq!(FileMerkleTree::decode(&[1, 0, 0, 0, 1, 0, 0]), Err(MerkleError::TruncatedInput));
    assert_eq!(FileMerkleTree::decode(&[4, 0, 0, 0, 1, 0, 0, 0, 9, 9, 9]), Err(MerkleError::TruncatedInput));
    assert_eq!(
        FileMerkleTree::decode(&[0xff, 0xff, 0xff, 0xff, 1, 0, 0, 0]),
        Err(MerkleError::TruncatedInput)
    );
}
