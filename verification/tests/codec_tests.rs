//! The persisted encodings: commit payloads and trees survive a round trip.

use cogit::cogit::{encode_commit, encode_tree, parse_commit, parse_tree, Commit, TreeEntry};

#[test]
fn commit_payload_round_trip() {
    let commit = Commit {
        hash: String::new(),
        message: "fix: handle ünïcode, too".to_string(),
        timestamp: -1234567890,
        parent: Some("abcdef0123".to_string()),
        tree_hash: "treehash".to_string(),
    };
    let bytes = encode_commit(&commit);
    let (message, timestamp, parent, tree_hash) = parse_commit(&bytes).unwrap();
    assert_eq!(message, "fix: handle ünïcode, too");
    assert_eq!(timestamp, -1234567890);
    assert_eq!(parent.as_deref(), Some("abcdef0123"));
    assert_eq!(tree_hash, "treehash");
}

#[test]
fn commit_payload_without_parent_round_trip() {
    let commit = Commit {
        hash: String::new(),
        message: String::new(),
        timestamp: 0,
        parent: None,
        tree_hash: "t".to_string(),
    };
    let bytes = encode_commit(&commit);
    let (message, timestamp, parent, tree_hash) = parse_commit(&bytes).unwrap();
    assert_eq!(message, "");
    assert_eq!(timestamp, 0);
    assert_eq!(parent, None);
    assert_eq!(tree_hash, "t");
}

#[test]
fn commit_parse_rejects_garbage() {
    assert!(parse_commit(&b"garbage".to_vec()).is_none());
    assert!(parse_commit(&Vec::new()).is_none());
}

#[test]
fn commit_parse_rejects_trailing_bytes() {
    let commit = Commit {
        hash: String::new(),
        message: "m".to_string(),
        timestamp: 1,
        parent: None,
        tree_hash: "t".to_string(),
    };
    let mut bytes = encode_commit(&commit);
    bytes.push(0);
    assert!(parse_commit(&bytes).is_none());
}

#[test]
fn tree_round_trip() {
    let entries = vec![
        TreeEntry {
            name: "x.txt".to_string(),
            hash: "h1".to_string(),
            is_file: true,
        },
        TreeEntry {
            name: "sub".to_string(),
            hash: "h2".to_string(),
            is_file: false,
        },
    ];
    let bytes = encode_tree(&entries);
    let parsed = parse_tree(&bytes).unwrap();
    assert_eq!(parsed.len(), 2);
    assert_eq!(parsed[0].name, "x.txt");
    assert_eq!(parsed[0].hash, "h1");
    assert!(parsed[0].is_file);
    assert_eq!(parsed[1].name, "sub");
    assert!(!parsed[1].is_file);
}

#[test]
fn empty_tree_round_trip() {
    let bytes = encode_tree(&Vec::new());
    let parsed = parse_tree(&bytes).unwrap();
    assert_eq!(parsed.len(), 0);
}

#[test]
fn tree_parse_rejects_garbage() {
    assert!(parse_tree(&vec![2u8, 0, 0]).is_none());
}
