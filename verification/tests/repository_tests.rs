//! The commit chain: committing, logging, opening, the status line.

use cogit::cogit::{encode_commit, parse_tree, CogitRepository, Commit, WorkFile};
use cogit::errors::CogitError;
use cogit::objects::ObjectStore;

fn one_file(name: &str, data: &[u8]) -> Vec<WorkFile> {
    vec![WorkFile {
        name: name.to_string(),
        data: data.to_vec(),
    }]
}

#[test]
fn fresh_repository_is_empty() {
    let repo = CogitRepository::init();
    assert!(repo.head().is_none());
    assert_eq!(repo.log().unwrap().len(), 0);
}

#[test]
fn commit_sets_head_and_log() {
    let mut repo = CogitRepository::init();
    let files = one_file("x.txt", b"hello");
    let hash = repo.commit(&files, "first", 100).unwrap();
    assert_eq!(repo.head(), Some(hash.clone()));
    let commits = repo.log().unwrap();
    assert_eq!(commits.len(), 1);
    assert_eq!(commits[0].hash, hash);
    assert_eq!(commits[0].message, "first");
    assert_eq!(commits[0].timestamp, 100);
    assert!(commits[0].parent.is_none());
}

#[test]
fn commit_head_differs_even_with_unchanged_tree() {
    let mut repo = CogitRepository::init();
    let files = one_file("x.txt", b"hello");
    let h1 = repo.commit(&files, "same message", 100).unwrap();
    // Same tree, same message, a later timestamp.
    let h2 = repo.commit(&files, "same message", 101).unwrap();
    assert_ne!(h1, h2);
    // Even an identical timestamp yields a distinct head: the parent link
    // differs.
    let h3 = repo.commit(&files, "same message", 101).unwrap();
    assert_ne!(h2, h3);
}

#[test]
fn log_is_most_recent_first_and_walks_parents() {
    let mut repo = CogitRepository::init();
    let h1 = repo.commit(&one_file("a.txt", b"1"), "one", 10).unwrap();
    let h2 = repo.commit(&one_file("a.txt", b"2"), "two", 20).unwrap();
    let h3 = repo.commit(&one_file("a.txt", b"3"), "three", 30).unwrap();
    let commits = repo.log().unwrap();
    assert_eq!(commits.len(), 3);
    assert_eq!(commits[0].hash, h3);
    assert_eq!(commits[1].hash, h2);
    assert_eq!(commits[2].hash, h1);
    assert_eq!(commits[0].parent, Some(h2));
    assert_eq!(commits[1].parent, Some(h1));
    assert_eq!(commits[2].parent, None);
}

#[test]
fn hidden_files_are_not_snapshotted() {
    let mut repo = CogitRepository::init();
    let files = vec![
        WorkFile {
            name: ".cogit".to_string(),
            data: b"internal".to_vec(),
        },
        WorkFile {
            name: "seen.txt".to_string(),
            data: b"visible".to_vec(),
        },
    ];
    repo.commit(&files, "snapshot", 1).unwrap();
    let commits = repo.log().unwrap();
    let tree_bytes = repo.object_store().load(&commits[0].tree_hash).unwrap();
    let entries = parse_tree(&tree_bytes).unwrap();
    assert_eq!(entries.len(), 1);
    assert_eq!(entries[0].name, "seen.txt");
}

#[test]
fn end_to_end_single_commit_tree() {
    // Init an empty repository: zero commits. Add x.txt = "hello", commit,
    // and the log holds one commit whose tree names x.txt with the content's
    // own hash.
    let mut repo = CogitRepository::init();
    assert_eq!(repo.log().unwrap().len(), 0);
    let files = one_file("x.txt", b"hello");
    repo.commit(&files, "add x", 42).unwrap();
    let commits = repo.log().unwrap();
    assert_eq!(commits.len(), 1);
    let tree_bytes = repo.object_store().load(&commits[0].tree_hash).unwrap();
    let entries = parse_tree(&tree_bytes).unwrap();
    assert_eq!(entries.len(), 1);
    assert_eq!(entries[0].name, "x.txt");
    assert_eq!(entries[0].hash, CogitRepository::calculate_hash(b"hello"));
    assert!(entries[0].is_file);
}

#[test]
fn status_counts_commits() {
    let mut repo = CogitRepository::init();
    assert_eq!(repo.status().unwrap(), "Repositório COGIT com 0 commit(s)");
    repo.commit(&one_file("a", b"x"), "m", 1).unwrap();
    assert_eq!(repo.status().unwrap(), "Repositório COGIT com 1 commit(s)");
    repo.commit(&one_file("a", b"y"), "m", 2).unwrap();
    assert_eq!(repo.status().unwrap(), "Repositório COGIT com 2 commit(s)");
}

#[test]
fn open_empty_repository() {
    let repo = CogitRepository::open(ObjectStore::empty(), None).unwrap();
    assert!(repo.head().is_none());
    assert_eq!(repo.log().unwrap().len(), 0);
}

#[test]
fn open_reads_back_a_stored_chain() {
    let mut store = ObjectStore::empty();
    let root = Commit {
        hash: String::new(),
        message: "root".to_string(),
        timestamp: 5,
        parent: None,
        tree_hash: "t0".to_string(),
    };
    let root_hash = store.store(encode_commit(&root)).unwrap();
    let child = Commit {
        hash: String::new(),
        message: "child".to_string(),
        timestamp: 6,
        parent: Some(root_hash.clone()),
        tree_hash: "t1".to_string(),
    };
    let child_hash = store.store(encode_commit(&child)).unwrap();
    let repo = CogitRepository::open(store, Some(child_hash.clone())).unwrap();
    let commits = repo.log().unwrap();
    assert_eq!(commits.len(), 2);
    assert_eq!(commits[0].hash, child_hash);
    assert_eq!(commits[0].message, "child");
    assert_eq!(commits[0].timestamp, 6);
    assert_eq!(commits[0].parent, Some(root_hash.clone()));
    assert_eq!(commits[1].hash, root_hash);
    assert_eq!(commits[1].message, "root");
    assert_eq!(commits[1].parent, None);
}

#[test]
fn open_missing_reference_fails() {
    match CogitRepository::open(ObjectStore::empty(), Some("feed".to_string())) {
        Ok(_) => panic!("opening a dangling reference must fail"),
        Err(e) => assert_eq!(e, CogitError::InvalidHash),
    }
}

#[test]
fn open_undecodable_commit_fails() {
    let mut store = ObjectStore::empty();
    let h = store.store(b"not a commit".to_vec()).unwrap();
    match CogitRepository::open(store, Some(h)) {
        Ok(_) => panic!("opening an undecodable payload must fail"),
        Err(e) => assert_eq!(e, CogitError::SerializationError),
    }
}
