use std::sync::Arc;
use trustless_file_server::rpc::{hash_items, merkle_proof_item, root_from_hex, vec_to_hex_string, TemplatePallet};

#[test]
fn bytes_to_lower_hex() {
    assert_eq!(vec_to_hex_string(&vec![]), "");
    assert_eq!(vec_to_hex_string(&vec![0x00, 0x0f, 0xa5, 0xff]), "000fa5ff");
}

#[test]
fn hex_to_bytes() {
    assert_eq!(root_from_hex("000fa5ff"), Some(vec![0x00, 0x0f, 0xa5, 0xff]));
    assert_eq!(root_from_hex("0xA5Ff"), Some(vec![0xa5, 0xff]));
    assert_eq!(root_from_hex(""), Some(vec![]));
    assert_eq!(root_from_hex("abc"), None);
    assert_eq!(root_from_hex("zz"), None);
}

#[test]
fn listing_and_proof_in_hex() {
    let items = hash_items(&vec![(vec![1, 2], 3), (vec![0xff], 1)]);
    assert_eq!(items.len(), 2);
    assert_eq!(items[0].hash, "0102");
    assert_eq!(items[0].pieces, 3);
    assert_eq!(items[1].hash, "ff");
    let p = merkle_proof_item(&vec![0xab], &vec![vec![0x01], vec![0x10, 0x20]]);
    assert_eq!(p.content, "ab");
    assert_eq!(p.proof, vec!["01".to_string(), "1020".to_string()]);
}

#[test]
fn server_keeps_its_client() {
    let client = Arc::new(5u32);
    let server: TemplatePallet<u32, ()> = TemplatePallet::new(client.clone());
    assert!(Arc::ptr_eq(&server.client, &client));
}
