//! The diff engine: hunks, addition hunks, patches, and the error on equal
//! versions.

use cogit::cogit::CogitRepository;
use cogit::diff::{DiffEngine, FileChangeType, LineChangeType};
use cogit::errors::CogitError;

#[test]
fn new_file_is_one_all_added_hunk() {
    // compute(None, "a\nb\nc"): one hunk, three added lines, old 0,0 new 1,3.
    let engine = DiffEngine::new();
    let diff = engine
        .calculate_file_diff("notes.txt", None, "a\nb\nc", 7)
        .unwrap();
    assert_eq!(diff.change_type, FileChangeType::Added);
    assert!(diff.old_hash.is_none());
    assert_eq!(diff.hunks.len(), 1);
    let hunk = &diff.hunks[0];
    assert_eq!(hunk.old_start, 0);
    assert_eq!(hunk.old_count, 0);
    assert_eq!(hunk.new_start, 1);
    assert_eq!(hunk.new_count, 3);
    assert_eq!(hunk.lines.len(), 3);
    for (i, expected) in ["a", "b", "c"].iter().enumerate() {
        assert_eq!(hunk.lines[i].change_type, LineChangeType::Added);
        assert_eq!(hunk.lines[i].line_number, i + 1);
        assert_eq!(hunk.lines[i].content, *expected);
    }
    assert_eq!(diff.created_at, 7);
}

#[test]
fn modified_file_is_context_removed_added() {
    // compute("a\nb", "a\nc"): one hunk: context "a", removed "b", added "c".
    let engine = DiffEngine::new();
    let diff = engine
        .calculate_file_diff("f", Some("a\nb"), "a\nc", 1)
        .unwrap();
    assert_eq!(diff.change_type, FileChangeType::Modified);
    assert_eq!(diff.hunks.len(), 1);
    let hunk = &diff.hunks[0];
    assert_eq!(hunk.old_start, 1);
    assert_eq!(hunk.old_count, 2);
    assert_eq!(hunk.new_start, 1);
    assert_eq!(hunk.new_count, 2);
    assert_eq!(hunk.lines.len(), 3);
    assert_eq!(hunk.lines[0].change_type, LineChangeType::Context);
    assert_eq!(hunk.lines[0].content, "a");
    assert_eq!(hunk.lines[0].line_number, 1);
    assert_eq!(hunk.lines[1].change_type, LineChangeType::Removed);
    assert_eq!(hunk.lines[1].content, "b");
    assert_eq!(hunk.lines[1].line_number, 2);
    assert_eq!(hunk.lines[2].change_type, LineChangeType::Added);
    assert_eq!(hunk.lines[2].content, "c");
    assert_eq!(hunk.lines[2].line_number, 2);
}

#[test]
fn equal_versions_are_refused() {
    let engine = DiffEngine::new();
    let err = engine
        .calculate_file_diff("f", Some("same\ntext"), "same\ntext", 1)
        .unwrap_err();
    assert_eq!(err, CogitError::NoChangesToCommit);
}

#[test]
fn diff_resumes_matching_after_a_mismatch() {
    // A changed middle line keeps the following equal line as context.
    let engine = DiffEngine::new();
    let diff = engine
        .calculate_file_diff("f", Some("a\nb\nc"), "a\nx\nc", 1)
        .unwrap();
    let hunk = &diff.hunks[0];
    let kinds: Vec<LineChangeType> = hunk.lines.iter().map(|l| l.change_type).collect();
    assert_eq!(
        kinds,
        vec![
            LineChangeType::Context,
            LineChangeType::Removed,
            LineChangeType::Added,
            LineChangeType::Context,
        ]
    );
    assert_eq!(hunk.lines[3].content, "c");
}

#[test]
fn longer_new_version_flushes_the_rest_as_added() {
    let engine = DiffEngine::new();
    let diff = engine
        .calculate_file_diff("f", Some("a"), "a\nb\nc", 1)
        .unwrap();
    let hunk = &diff.hunks[0];
    assert_eq!(hunk.old_count, 1);
    assert_eq!(hunk.new_count, 3);
    let kinds: Vec<LineChangeType> = hunk.lines.iter().map(|l| l.change_type).collect();
    assert_eq!(
        kinds,
        vec![
            LineChangeType::Context,
            LineChangeType::Added,
            LineChangeType::Added,
        ]
    );
}

#[test]
fn patch_text_is_unified_diff() {
    let engine = DiffEngine::new();
    let diff = engine
        .calculate_file_diff("f", Some("a\nb"), "a\nc", 1)
        .unwrap();
    assert_eq!(
        diff.patch_content,
        "--- a/f\n+++ b/f\n@@ -1,2 +1,2 @@\n a\n-b\n+c\n"
    );
}

#[test]
fn addition_hunk_strips_carriage_returns_before_line_feeds() {
    let engine = DiffEngine::new();
    let hunk = engine.create_addition_hunk("x\r\ny");
    assert_eq!(hunk.new_count, 2);
    assert_eq!(hunk.lines[0].content, "x");
    assert_eq!(hunk.lines[1].content, "y");
}

#[test]
fn trailing_line_feed_adds_no_empty_line() {
    let engine = DiffEngine::new();
    let hunk = engine.create_addition_hunk("only\n");
    assert_eq!(hunk.new_count, 1);
    assert_eq!(hunk.lines[0].content, "only");
}

#[test]
fn empty_contents_give_no_hunks() {
    let engine = DiffEngine::new();
    let hunks = engine.calculate_hunks("", "").unwrap();
    assert_eq!(hunks.len(), 0);
}

#[test]
fn hashes_in_diff_match_content_hashes() {
    let engine = DiffEngine::new();
    let diff = engine
        .calculate_file_diff("f", Some("old"), "new", 1)
        .unwrap();
    assert_eq!(
        diff.old_hash.as_deref(),
        Some(CogitRepository::calculate_hash(b"old").as_str())
    );
    assert_eq!(diff.new_hash, CogitRepository::calculate_hash(b"new"));
}
