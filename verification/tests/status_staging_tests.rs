//! The staging area, its persistence, and the three-way status resolution.

use cogit::cogit::{CogitRepository, WorkFile};
use cogit::diff::{classify, DiffEngine, WorkingTreeStatus};
use cogit::errors::CogitError;
use cogit::staging::StagingArea;

#[test]
fn classify_follows_the_five_rules() {
    let a = "aaaa".to_string();
    let b = "bbbb".to_string();
    // Staged and equal to the working copy.
    assert_eq!(
        classify(Some(&a), None, Some(&a)),
        WorkingTreeStatus::Staged
    );
    assert_eq!(
        classify(Some(&a), Some(&b), Some(&a)),
        WorkingTreeStatus::Staged
    );
    // Staged and different, or the working copy absent.
    assert_eq!(
        classify(Some(&a), None, Some(&b)),
        WorkingTreeStatus::Modified
    );
    assert_eq!(classify(Some(&a), None, None), WorkingTreeStatus::Modified);
    // Unstaged, committed, equal.
    assert_eq!(
        classify(None, Some(&a), Some(&a)),
        WorkingTreeStatus::Unchanged
    );
    // Unstaged, committed, different.
    assert_eq!(
        classify(None, Some(&a), Some(&b)),
        WorkingTreeStatus::Modified
    );
    // Known nowhere.
    assert_eq!(classify(None, None, Some(&a)), WorkingTreeStatus::Untracked);
}

#[test]
fn staging_add_records_hash_and_size() {
    let mut area = StagingArea::empty(0);
    area.add("x.txt", &b"hello".to_vec(), 99);
    assert_eq!(area.len(), 1);
    assert_eq!(area.last_updated, 99);
    let entry = area.lookup("x.txt").unwrap();
    assert_eq!(entry.content_hash, CogitRepository::calculate_hash(b"hello"));
    assert_eq!(entry.file_size, 5);
    assert_eq!(entry.staged_at, 99);
}

#[test]
fn staging_readd_overwrites_the_entry() {
    let mut area = StagingArea::empty(0);
    area.add("x.txt", &b"one".to_vec(), 1);
    area.add("x.txt", &b"two".to_vec(), 2);
    assert_eq!(area.len(), 1);
    let entry = area.lookup("x.txt").unwrap();
    assert_eq!(entry.content_hash, CogitRepository::calculate_hash(b"two"));
    assert_eq!(entry.staged_at, 2);
}

#[test]
fn staging_clear_empties_the_area() {
    let mut area = StagingArea::empty(0);
    area.add("x.txt", &b"one".to_vec(), 1);
    area.clear(5);
    assert_eq!(area.len(), 0);
    assert!(area.is_empty());
    assert!(area.lookup("x.txt").is_none());
    assert_eq!(area.last_updated, 5);
}

#[test]
fn staging_save_and_load_round_trip() {
    let engine = DiffEngine::new();
    let mut area = StagingArea::empty(0);
    area.add("x.txt", &b"hello".to_vec(), 11);
    area.add("y.txt", &b"world".to_vec(), 12);
    let bytes = engine.save_staging_area(&area);
    let loaded = engine.load_staging_area(Some(&bytes), 0).unwrap();
    assert_eq!(loaded.last_updated, 12);
    assert_eq!(loaded.len(), 2);
    let x = loaded.lookup("x.txt").unwrap();
    assert_eq!(x.content_hash, CogitRepository::calculate_hash(b"hello"));
    assert_eq!(x.staged_at, 11);
    let y = loaded.lookup("y.txt").unwrap();
    assert_eq!(y.content_hash, CogitRepository::calculate_hash(b"world"));
}

#[test]
fn missing_staging_file_means_empty_area() {
    let engine = DiffEngine::new();
    let area = engine.load_staging_area(None, 33).unwrap();
    assert!(area.is_empty());
    assert_eq!(area.last_updated, 33);
}

#[test]
fn malformed_staging_bytes_are_refused() {
    let engine = DiffEngine::new();
    let err = engine
        .load_staging_area(Some(&vec![9u8, 9, 9]), 0)
        .unwrap_err();
    assert_eq!(err, CogitError::SerializationError);
}

#[test]
fn get_status_classifies_each_working_file() {
    let engine = DiffEngine::new();
    let mut repo = CogitRepository::init();
    repo.commit(
        &vec![
            WorkFile {
                name: "kept.txt".to_string(),
                data: b"kept".to_vec(),
            },
            WorkFile {
                name: "edited.txt".to_string(),
                data: b"before".to_vec(),
            },
        ],
        "base",
        1,
    )
    .unwrap();
    let mut staging = StagingArea::empty(0);
    staging.add("staged.txt", &b"staged".to_vec(), 2);
    let working = vec![
        WorkFile {
            name: "kept.txt".to_string(),
            data: b"kept".to_vec(),
        },
        WorkFile {
            name: "edited.txt".to_string(),
            data: b"after".to_vec(),
        },
        WorkFile {
            name: "staged.txt".to_string(),
            data: b"staged".to_vec(),
        },
        WorkFile {
            name: "fresh.txt".to_string(),
            data: b"fresh".to_vec(),
        },
    ];
    let statuses = engine.get_status(&working, &staging, &repo).unwrap();
    assert_eq!(statuses.len(), 4);
    assert_eq!(statuses[0].file_path, "kept.txt");
    assert_eq!(statuses[0].status, WorkingTreeStatus::Unchanged);
    assert_eq!(
        statuses[0].head_hash.as_deref(),
        Some(CogitRepository::calculate_hash(b"kept").as_str())
    );
    assert_eq!(statuses[1].status, WorkingTreeStatus::Modified);
    assert_eq!(statuses[2].status, WorkingTreeStatus::Staged);
    assert_eq!(
        statuses[2].index_hash.as_deref(),
        Some(CogitRepository::calculate_hash(b"staged").as_str())
    );
    assert_eq!(statuses[3].status, WorkingTreeStatus::Untracked);
    assert!(statuses[3].head_hash.is_none());
    assert!(statuses[3].index_hash.is_none());
    assert_eq!(
        statuses[3].working_tree_hash.as_deref(),
        Some(CogitRepository::calculate_hash(b"fresh").as_str())
    );
}

#[test]
fn add_to_staging_through_the_engine() {
    let engine = DiffEngine::new();
    let mut staging = StagingArea::empty(0);
    engine
        .add_to_staging(&mut staging, "a.txt", &b"abc".to_vec(), 4)
        .unwrap();
    assert_eq!(staging.len(), 1);
    assert_eq!(
        staging.lookup("a.txt").unwrap().content_hash,
        CogitRepository::calculate_hash(b"abc")
    );
}
