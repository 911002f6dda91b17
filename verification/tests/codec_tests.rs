use db_adapter::codec::{decode_node, decode_node_key, encode_node, encode_node_key};
use db_adapter::types::{Node, NodeKey};

#[test]
fn node_key_encoding_is_big_endian_version_then_path() {
    let k = NodeKey { version: 1, path: vec![0xAA, 0xBB] };
    let raw = encode_node_key(&k);
    assert_eq!(raw, vec![0, 0, 0, 0, 0, 0, 0, 1, 0xAA, 0xBB]);
}

#[test]
fn node_key_encoding_of_large_version() {
    let k = NodeKey { version: 0x0102_0304_0506_0708, path: vec![] };
    let raw = encode_node_key(&k);
    assert_eq!(raw, vec![1, 2, 3, 4, 5, 6, 7, 8]);
}

#[test]
fn node_key_round_trips() {
    let k = NodeKey { version: 712, path: vec![7, 0, 9] };
    let raw = encode_node_key(&k);
    let back = decode_node_key(&raw).expect("canonical encoding must decode");
    assert_eq!(back.version, 712);
    assert_eq!(back.path, vec![7, 0, 9]);
}

#[test]
fn short_raw_key_is_not_a_node_key() {
    assert!(decode_node_key(&vec![1, 2, 3]).is_none());
    assert!(decode_node_key(&vec![]).is_none());
    assert!(decode_node_key(&vec![0, 0, 0, 0, 0, 0, 0]).is_none());
}

#[test]
fn eight_byte_key_has_empty_path() {
    let back = decode_node_key(&vec![0, 0, 0, 0, 0, 0, 0, 5]).unwrap();
    assert_eq!(back.version, 5);
    assert!(back.path.is_empty());
}

#[test]
fn node_encoding_tags_each_kind() {
    assert_eq!(encode_node(&Node::Internal(vec![4])), vec![0, 4]);
    assert_eq!(encode_node(&Node::Leaf(vec![5, 6])), vec![1, 5, 6]);
    assert_eq!(encode_node(&Node::Null), vec![2]);
}

#[test]
fn node_round_trips() {
    let n = Node::Leaf(vec![1, 2, 3]);
    let raw = encode_node(&n);
    match decode_node(&raw) {
        Some(Node::Leaf(p)) => assert_eq!(p, vec![1, 2, 3]),
        _ => panic!("leaf must decode as leaf"),
    }
    match decode_node(&encode_node(&Node::Null)) {
        Some(Node::Null) => {},
        _ => panic!("null must decode as null"),
    }
}

#[test]
fn foreign_raw_values_are_not_nodes() {
    assert!(decode_node(&vec![]).is_none());
    assert!(decode_node(&vec![9, 1]).is_none());
    assert!(decode_node(&vec![2, 1]).is_none());
}
