use base64::Engine;

use columnize::error::Error;
use columnize::select::{bytes_eq, parse_identifiers, select_blocks};

fn cid_bytes(digest: [u8; 4]) -> Vec<u8> {
    // version 1, raw codec, identity multihash over a 4-byte digest
    let mut b = vec![0x01, 0x55, 0x00, 0x04];
    b.extend_from_slice(&digest);
    b
}

#[test]
fn parse_identifiers_round_trip() {
    let id1 = cid_bytes([1, 2, 3, 4]);
    let id2 = cid_bytes([5, 6, 7, 8]);
    let lines = vec![
        base64::engine::general_purpose::STANDARD.encode(&id1),
        base64::engine::general_purpose::STANDARD.encode(&id2),
    ];
    let ids = parse_identifiers(&lines).unwrap();
    assert_eq!(ids.len(), 2);
    assert_eq!(ids[0], id1);
    assert_eq!(ids[1], id2);
}

#[test]
fn parse_identifiers_rejects_bad_base64() {
    let lines = vec!["!!! not base64 !!!".to_string()];
    let e = parse_identifiers(&lines).unwrap_err();
    assert!(matches!(e, Error::InvalidIdentifier));
}

#[test]
fn parse_identifiers_rejects_bytes_that_are_no_identifier() {
    // valid base64, but the decoded bytes do not parse as an identifier
    let lines = vec![base64::engine::general_purpose::STANDARD.encode([0xffu8, 0xff])];
    let e = parse_identifiers(&lines).unwrap_err();
    assert!(matches!(e, Error::InvalidIdentifier));
}

#[test]
fn selection_keeps_wanted_blocks_in_order() {
    let ida = cid_bytes([1, 1, 1, 1]);
    let idb = cid_bytes([2, 2, 2, 2]);
    let idc = cid_bytes([3, 3, 3, 3]);
    let blocks = vec![
        (ida.clone(), vec![10u8]),
        (idb.clone(), vec![20u8]),
        (idc.clone(), vec![30u8]),
    ];
    let wanted = vec![idc.clone(), ida.clone()];
    let out = select_blocks(blocks, &wanted);
    assert_eq!(out.len(), 2);
    assert_eq!(out[0].0, ida);
    assert_eq!(out[0].1, vec![10u8]);
    assert_eq!(out[1].0, idc);
    assert_eq!(out[1].1, vec![30u8]);
}

#[test]
fn selection_of_nothing_is_empty() {
    let blocks = vec![(cid_bytes([1, 1, 1, 1]), vec![10u8])];
    let wanted: Vec<Vec<u8>> = vec![];
    let out = select_blocks(blocks, &wanted);
    assert!(out.is_empty());
}

#[test]
fn bytes_eq_compares_contents() {
    assert!(bytes_eq(&vec![1, 2, 3], &vec![1, 2, 3]));
    assert!(!bytes_eq(&vec![1, 2, 3], &vec![1, 2]));
    assert!(!bytes_eq(&vec![1, 2, 3], &vec![1, 2, 4]));
}
