use trustless_file_server::merkle::{verify_proof, FileMerkleTree, MerkleError};
use trustless_file_server::rpc::vec_to_hex_string;

fn content(n: usize) -> Vec<u8> {
    (0..n).map(|i| (i % 251) as u8).collect()
}

fn build(n: usize) -> FileMerkleTree {
    FileMerkleTree::new(content(n)).expect("non-empty content builds")
}

fn root_hex(t: &FileMerkleTree) -> String {
    vec_to_hex_string(&t.merkle_root().to_vec())
}

#[test]
fn two_pieces_of_1500_bytes() {
    let t = build(1500);
    assert_eq!(t.pieces, 2);
    assert_eq!(t.merkle_tree.len(), 96);
    let (chunk, proof) = t.merkle_proof(0).unwrap();
    assert_eq!(chunk, content(1500)[..1024].to_vec());
    assert_eq!(proof.len(), 1);
    assert_eq!(proof[0], t.merkle_tree[32..64].to_vec());
    assert_eq!(root_hex(&t), "92389b926c041de316a7f8052aa973be0b09634ac73e03bb358710c5673bf26e");
}

#[test]
fn three_pieces_of_3000_bytes() {
    let t = build(3000);
    assert_eq!(t.pieces, 3);
    assert_eq!(t.merkle_tree.len(), 224);
    // the fourth leaf is the filler digest
    assert_eq!(t.merkle_tree[96..128].to_vec(), vec![0u8; 32]);
    let (chunk, proof) = t.merkle_proof(2).unwrap();
    assert_eq!(chunk.len(), 3000 - 2048);
    assert_eq!(proof.len(), 2);
    assert_eq!(proof[0], vec![0u8; 32]);
    assert_eq!(root_hex(&t), "0e449e98b06ae114c101fbe99cc7546a03fcf2894493441ce935ae0d239b17e3");
}

#[test]
fn single_piece_of_500_bytes() {
    let t = build(500);
    assert_eq!(t.pieces, 1);
    assert_eq!(t.merkle_tree.len(), 32);
    let mut padded = content(500);
    padded.resize(1024, 0);
    assert_eq!(t.merkle_root().to_vec(), sp_io::hashing::sha2_256(&padded).to_vec());
    assert_eq!(root_hex(&t), "9f57f29a745b1a99e346771ec7d9d1d1d35103cba1eed96e6c4267c432d7af1c");
    let (chunk, proof) = t.merkle_proof(0).unwrap();
    assert_eq!(chunk, content(500));
    assert!(proof.is_empty());
    assert!(verify_proof(t.merkle_root(), &chunk, 0, &proof, 1));
}

#[test]
fn full_chunk_is_hashed_unpadded() {
    let t = FileMerkleTree::new(vec![0u8; 1024]).unwrap();
    assert_eq!(t.pieces, 1);
    assert_eq!(root_hex(&t), "5f70bf18a086007016e948b04aed3b82103a36bea41755b6cddfaf10ace3c6ef");
    let t = build(1024);
    assert_eq!(root_hex(&t), "2bce1ba628720664be4b9fdd77aae0678e5f0f3f02fc6ff641ec879094f6a404");
    let t = build(2048);
    assert_eq!(t.pieces, 2);
    assert_eq!(root_hex(&t), "4d95ddddce123a402bb8ab5485082f46ea4e8311cb15aa2272acef60ec6db42c");
}

#[test]
fn empty_content_is_refused() {
    assert_eq!(FileMerkleTree::new(Vec::new()), Err(MerkleError::EmptyContent));
}

#[test]
fn piece_count_is_ceiling_of_chunks() {
    for (n, pieces) in [(1usize, 1u32), (1023, 1), (1024, 1), (1025, 2), (4096, 4), (4097, 5), (10_000, 10)] {
        let t = build(n);
        assert_eq!(t.pieces, pieces, "content of {} bytes", n);
        let width = (pieces as usize).next_power_of_two();
        assert_eq!(t.merkle_tree.len(), (2 * width - 1) * 32);
    }
}

#[test]
fn root_is_deterministic() {
    let a = build(5000);
    let b = build(5000);
    assert_eq!(a.merkle_root().len(), 32);
    assert_eq!(a.merkle_root(), b.merkle_root());
    assert_eq!(a, b);
    assert_ne!(build(5001).merkle_root(), a.merkle_root());
}

#[test]
fn every_chunk_verifies() {
    for n in [1usize, 1500, 3000, 5000, 8192, 9000] {
        let t = build(n);
        for p in 0..t.pieces {
            let (chunk, proof) = t.merkle_proof(p).unwrap();
            assert!(verify_proof(t.merkle_root(), &chunk, p, &proof, t.pieces), "chunk {} of {}", p, n);
        }
    }
}

#[test]
fn proof_beyond_last_piece_is_none() {
    let t = build(3000);
    assert!(t.merkle_proof(3).is_none());
    assert!(t.merkle_proof(4).is_none());
    assert!(t.merkle_proof(u32::MAX).is_none());
}

#[test]
fn tampered_chunk_fails_to_verify() {
    let t = build(5000);
    for p in 0..t.pieces {
        let (chunk, proof) = t.merkle_proof(p).unwrap();
        for (byte, bit) in [(0usize, 0u8), (chunk.len() - 1, 7), (chunk.len() / 2, 3)] {
            let mut bad = chunk.clone();
            bad[byte] ^= 1 << bit;
            assert!(!verify_proof(t.merkle_root(), &bad, p, &proof, t.pieces));
        }
    }
}

#[test]
fn wrong_position_or_proof_fails_to_verify() {
    let t = build(5000);
    let (chunk, proof) = t.merkle_proof(1).unwrap();
    assert!(!verify_proof(t.merkle_root(), &chunk, 0, &proof, t.pieces));
    assert!(!verify_proof(t.merkle_root(), &chunk, 1, &proof, 1));
    assert!(!verify_proof(t.merkle_root(), &chunk, 1, &proof[..2].to_vec(), t.pieces));
    assert!(!verify_proof(t.merkle_root(), &chunk, 1, &Vec::new(), t.pieces));
    let mut bad_root = t.merkle_root().to_vec();
    bad_root[0] ^= 1;
    assert!(!verify_proof(&bad_root, &chunk, 1, &proof, t.pieces));
}
