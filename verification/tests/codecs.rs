//! Tests of the node record codec, the value log codec and the key mapper.
use trie_index::node_codec::{TrieNode, encode_node, decode_node, NODE_RECORD_LEN};
use trie_index::value_codec::{append_record, decode_values};
use trie_index::keys::{meta_key, node_key, value_key};
use trie_index::TrieError;

#[test]
fn node_record_round_trip() {
    let mut n = TrieNode::empty(7);
    n.next[0] = Some(1);
    n.next[42] = Some(90000);
    n.next[255] = Some(4294967295);
    let bytes = encode_node(&n);
    assert_eq!(bytes.len(), NODE_RECORD_LEN);
    let back = decode_node(&bytes).unwrap();
    assert_eq!(back.value, 7);
    for b in 0..256 {
        assert_eq!(back.next[b], n.next[b]);
    }
}

#[test]
fn node_record_rejects_wrong_width() {
    let r = decode_node(&vec![1u8; 100]);
    assert!(matches!(r, Err(TrieError::CorruptRecord)));
    let n = TrieNode::empty(0);
    let mut bytes = encode_node(&n);
    bytes.pop();
    assert!(matches!(decode_node(&bytes), Err(TrieError::CorruptRecord)));
}

#[test]
fn node_record_rejects_bad_version_or_flag() {
    let n = TrieNode::empty(0);
    let mut bytes = encode_node(&n);
    bytes[0] = 9;
    assert!(matches!(decode_node(&bytes), Err(TrieError::CorruptRecord)));

    let mut bytes = encode_node(&n);
    bytes[2] = 3;  // first slot's flag byte: neither 0 nor 1
    assert!(matches!(decode_node(&bytes), Err(TrieError::CorruptRecord)));
}

#[test]
fn empty_value_cell_decodes_to_empty_sequence() {
    let records = decode_values(&Vec::new());
    assert_eq!(records.len(), 0);
}

#[test]
fn value_cell_round_trip_in_order() {
    let mut cell: Vec<u8> = Vec::new();
    append_record(&mut cell, &b"first".to_vec());
    append_record(&mut cell, &Vec::new());
    append_record(&mut cell, &b"third".to_vec());
    let records = decode_values(&cell);
    assert_eq!(records.len(), 3);
    assert_eq!(records[0], b"first".to_vec());
    assert_eq!(records[1], Vec::<u8>::new());
    assert_eq!(records[2], b"third".to_vec());
}

#[test]
fn truncated_trailing_record_is_end_of_sequence() {
    let mut cell: Vec<u8> = Vec::new();
    append_record(&mut cell, &b"whole".to_vec());
    // a length prefix that promises more payload than remains
    cell.push(9);
    cell.push(0);
    cell.push(0);
    cell.push(0);
    cell.push(1);
    let records = decode_values(&cell);
    assert_eq!(records.len(), 1);
    assert_eq!(records[0], b"whole".to_vec());

    // fewer than four trailing bytes: also end of sequence
    let mut cell: Vec<u8> = Vec::new();
    append_record(&mut cell, &b"whole".to_vec());
    cell.push(1);
    let records = decode_values(&cell);
    assert_eq!(records.len(), 1);
}

#[test]
fn length_field_ending_at_buffer_boundary_still_counts() {
    // one empty record: its length field ends exactly at the buffer boundary
    let cell = vec![0u8, 0u8, 0u8, 0u8];
    let records = decode_values(&cell);
    assert_eq!(records.len(), 1);
    assert_eq!(records[0], Vec::<u8>::new());
}

#[test]
fn key_families_are_disjoint() {
    let prefix = b"ns".to_vec();
    let m = meta_key(&prefix);
    let n0 = node_key(&prefix, 0);
    let n1 = node_key(&prefix, 1);
    let v0 = value_key(&prefix, 0);
    assert_eq!(m, b"ns".to_vec());
    assert_ne!(n0, m);
    assert_ne!(v0, m);
    assert_ne!(v0, n0);
    assert_ne!(n0, n1);
    assert_eq!(n0.len(), prefix.len() + 8);
    assert_eq!(v0.len(), prefix.len() + 15);
}
