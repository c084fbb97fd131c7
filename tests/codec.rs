use gitdb::codec::{decode_change, decode_commit, decode_value, encode_change, encode_commit, encode_value};
use gitdb::error::ErrorKind;
use gitdb::models::{Change, Commit, CrdtValue};

fn sample_commit() -> Commit {
    Commit {
        parents: vec![[7u8; 32]],
        message: "add rows".to_string(),
        timestamp: 1_700_000_000,
        changes: vec![
            Change::Insert { table: "t".to_string(), id: "1".to_string(), value: encode_value(&CrdtValue::Counter(3)) },
            Change::Delete { table: "t".to_string(), id: "2".to_string() },
        ],
        tree: vec![("t".to_string(), [9u8; 32]), ("u".to_string(), [1u8; 32])],
    }
}

#[test]
fn value_round_trip() {
    for v in [CrdtValue::Counter(0), CrdtValue::Counter(u64::MAX), CrdtValue::Register(vec![]), CrdtValue::Register(vec![1, 2, 255])] {
        let bytes = encode_value(&v);
        assert_eq!(decode_value(&bytes).unwrap(), v);
    }
}

#[test]
fn value_layout_matches_bincode() {
    assert_eq!(encode_value(&CrdtValue::Counter(7)), bincode::serialize(&(0u32, 7u64)).unwrap());
    assert_eq!(encode_value(&CrdtValue::Register(vec![1, 2])), bincode::serialize(&(1u32, vec![1u8, 2u8])).unwrap());
}

#[test]
fn change_layout_matches_bincode() {
    let c = Change::Update { table: "tbl".to_string(), id: "é".to_string(), value: vec![5] };
    let expected = bincode::serialize(&(1u32, "tbl".to_string(), "é".to_string(), vec![5u8])).unwrap();
    assert_eq!(encode_change(&c), expected);
}

#[test]
fn change_round_trip() {
    let cs = vec![
        Change::Insert { table: "t".to_string(), id: "ä1".to_string(), value: vec![1, 2, 3] },
        Change::Update { table: "t".to_string(), id: "x".to_string(), value: vec![] },
        Change::Delete { table: "tab".to_string(), id: "!schema".to_string() },
    ];
    for c in cs {
        let bytes = encode_change(&c);
        assert_eq!(decode_change(&bytes).unwrap(), c);
    }
}

#[test]
fn commit_round_trip() {
    let c = sample_commit();
    let bytes = encode_commit(&c);
    assert_eq!(decode_commit(&bytes).unwrap(), c);
}

#[test]
fn commit_encoding_is_deterministic() {
    let a = encode_commit(&sample_commit());
    let b = encode_commit(&sample_commit());
    assert_eq!(a, b);
}

#[test]
fn truncated_value_is_refused() {
    let bytes = encode_value(&CrdtValue::Register(vec![1, 2, 3]));
    let e = decode_value(&bytes[..bytes.len() - 1]).unwrap_err();
    assert_eq!(e.error_kind(), ErrorKind::Serialization);
}

#[test]
fn unknown_tag_is_refused() {
    let e = decode_value(&[2, 0, 0, 0, 1, 0, 0, 0, 0, 0, 0, 0]).unwrap_err();
    assert_eq!(e.error_kind(), ErrorKind::Serialization);
    let e = decode_change(&[3, 0, 0, 0]).unwrap_err();
    assert_eq!(e.error_kind(), ErrorKind::Serialization);
}

#[test]
fn trailing_bytes_are_refused() {
    let mut bytes = encode_value(&CrdtValue::Counter(1));
    bytes.push(0);
    assert!(decode_value(&bytes).is_err());
}

#[test]
fn oversized_length_is_refused() {
    let mut bytes = vec![1u8, 0, 0, 0];
    bytes.extend_from_slice(&u64::MAX.to_le_bytes());
    assert!(decode_value(&bytes).is_err());
}

#[test]
fn invalid_utf8_is_refused() {
    let mut bytes = vec![2u8, 0, 0, 0];
    bytes.extend_from_slice(&1u64.to_le_bytes());
    bytes.push(0xff);
    bytes.extend_from_slice(&1u64.to_le_bytes());
    bytes.push(b'a');
    assert!(decode_change(&bytes).is_err());
}

#[test]
fn unsorted_tree_is_refused() {
    let mut c = sample_commit();
    c.tree.reverse();
    let bytes = encode_commit(&c);
    assert!(decode_commit(&bytes).is_err());
}
