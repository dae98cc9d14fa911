use trustless_file_server::merkle::{verify_proof, FileMerkleTree};
use trustless_file_server::pallet::{digest_key, Error, Event, Pallet};

fn content(n: usize) -> Vec<u8> {
    (0..n).map(|i| (i % 251) as u8).collect()
}

#[test]
fn upload_then_list_and_prove() {
    let mut store = Pallet::new();
    assert!(store.get_files().is_empty());
    let event = store.upload_file(7, content(3000)).unwrap();
    let tree = FileMerkleTree::new(content(3000)).unwrap();
    let root = tree.merkle_root().to_vec();
    assert_eq!(event, Event::FileUploaded { who: 7, merkle_root: root.clone(), pieces: 3 });
    assert_eq!(store.get_files(), vec![(root.clone(), 3)]);
    let (chunk, proof) = store.get_proof(root.clone(), 2).unwrap();
    assert_eq!(chunk, content(3000)[2048..].to_vec());
    assert!(verify_proof(&root, &chunk, 2, &proof, 3));
    assert!(store.get_proof(root, 3).is_none());
}

#[test]
fn unknown_root_gives_none() {
    let mut store = Pallet::new();
    store.upload_file(1, content(100)).unwrap();
    assert!(store.get_proof(vec![0u8; 32], 0).is_none());
    assert!(store.get_proof(vec![1, 2, 3], 0).is_none());
    assert!(store.get_proof(Vec::new(), 0).is_none());
}

#[test]
fn same_file_is_stored_once() {
    let mut store = Pallet::new();
    store.upload_file(1, content(1500)).unwrap();
    store.upload_file(2, content(2500)).unwrap();
    let again = store.upload_file(3, content(1500)).unwrap();
    let files = store.get_files();
    assert_eq!(files.len(), 2);
    match again {
        Event::FileUploaded { who, merkle_root, pieces } => {
            assert_eq!(who, 3);
            assert_eq!(pieces, 2);
            assert!(files.contains(&(merkle_root, 2)));
        }
    }
}

#[test]
fn empty_upload_is_refused() {
    let mut store = Pallet::new();
    assert_eq!(store.upload_file(1, Vec::new()), Err(Error::EmptyFile));
    assert!(store.get_files().is_empty());
}

#[test]
fn digest_key_needs_32_bytes() {
    assert_eq!(digest_key(&[5u8; 32]), Ok(vec![5u8; 32]));
    assert_eq!(digest_key(&[5u8; 31]), Err(Error::Unhasheable));
    assert_eq!(digest_key(&[5u8; 33]), Err(Error::Unhasheable));
}
