use dedup_index::digest::FileHasher;
use dedup_index::errors::{AppError, CaughtError};
use dedup_index::hash_data::FileEntry;
use dedup_index::scan_folders::{
    abort_error, commit_hash, needs_rehash, progress_percent, scan_for_deleted, HashOutcome,
};

fn entry(name: &str, size: u64, hash: &str, modified: u64) -> FileEntry {
    FileEntry {
        file_name: name.to_string(),
        file_size: size,
        hash: hash.to_string(),
        modified,
    }
}

fn hash_of(content: &[u8]) -> String {
    let mut hasher = FileHasher::new();
    hasher.update(content);
    hasher.finish()
}

#[test]
fn unchanged_size_and_time_skip_hashing() {
    let index = vec![entry("/f", 100, "digest-of-old-content", 1_700_000_000)];
    // The content may have changed on disk; equal size and time still count as unchanged.
    assert!(!needs_rehash(&index, "/f", 100, 1_700_000_000));
    assert_eq!(index[0].hash, "digest-of-old-content");
}

#[test]
fn changed_size_or_time_forces_rehash() {
    let mut index = vec![entry("/f", 100, "old", 1_700_000_000)];
    assert!(needs_rehash(&index, "/f", 101, 1_700_000_000));
    assert!(needs_rehash(&index, "/f", 100, 1_700_000_001));
    assert!(needs_rehash(&index, "/new", 100, 1_700_000_000));
    let digest = hash_of(b"new content");
    let result = commit_hash(
        &mut index,
        "/f".to_string(),
        101,
        1_700_000_000,
        HashOutcome::Completed(digest.clone()),
    );
    assert!(result.is_ok());
    assert_eq!(index.len(), 1);
    assert_eq!(index[0].hash, digest);
    assert_eq!(index[0].file_size, 101);
}

#[test]
fn deleted_files_are_pruned() {
    let index = vec![entry("/a", 1, "h", 1), entry("/b", 1, "h", 1), entry("/c", 1, "h", 1)];
    let pruned = scan_for_deleted(index, &vec![true, false, true]);
    let names: Vec<&str> = pruned.iter().map(|e| e.file_name.as_str()).collect();
    assert_eq!(names, vec!["/a", "/c"]);
}

#[test]
fn pruning_stopped_early_keeps_unchecked_records() {
    let index = vec![entry("/a", 1, "h", 1), entry("/b", 1, "h", 1), entry("/c", 1, "h", 1)];
    let pruned = scan_for_deleted(index, &vec![false]);
    let names: Vec<&str> = pruned.iter().map(|e| e.file_name.as_str()).collect();
    assert_eq!(names, vec!["/b", "/c"]);
    assert!(scan_for_deleted(Vec::new(), &Vec::new()).is_empty());
}

#[test]
fn abort_mid_file_keeps_earlier_updates() {
    let mut index = vec![entry("/d/1", 1, "old1", 1), entry("/d/2", 2, "old2", 2)];
    let first = commit_hash(&mut index, "/d/1".to_string(), 5, 9, HashOutcome::Completed(hash_of(b"one")));
    assert!(first.is_ok());
    let second = commit_hash(&mut index, "/d/2".to_string(), 6, 9, HashOutcome::Completed(hash_of(b"two")));
    assert!(second.is_ok());
    // Hashing of the third file is under way when the abort comes; its partial state is dropped.
    let mut partial = FileHasher::new();
    partial.update(b"thr");
    drop(partial);
    let third = commit_hash(&mut index, "/d/3".to_string(), 7, 9, HashOutcome::Aborted);
    let err = third.err().unwrap();
    assert!(err.is_abort());
    assert_eq!(err.to_message(), "Abort key pressed");
    assert_eq!(index.len(), 2);
    assert_eq!(index[0].hash, hash_of(b"one"));
    assert_eq!(index[1].hash, hash_of(b"two"));
    assert!(index.iter().all(|e| e.file_name != "/d/3"));
}

#[test]
fn abort_on_an_update_keeps_the_old_record() {
    let mut index = vec![entry("/d/1", 1, "old1", 1)];
    let result = commit_hash(&mut index, "/d/1".to_string(), 5, 9, HashOutcome::Aborted);
    assert!(result.is_err());
    assert_eq!(index[0].hash, "old1");
    assert_eq!(index[0].file_size, 1);
}

#[test]
fn read_failure_is_passed_on() {
    let mut index = Vec::new();
    let caught = CaughtError { caller: "Error at scan".to_string(), error: "denied".to_string() };
    let result = commit_hash(&mut index, "/x".to_string(), 1, 1, HashOutcome::Failed(caught));
    match result {
        Err(AppError::Caught(c)) => assert_eq!(c.error, "denied"),
        _ => panic!("expected the read failure"),
    }
    assert!(index.is_empty());
}

#[test]
fn abort_error_message() {
    assert_eq!(abort_error().to_message(), "Abort key pressed");
}

#[test]
fn progress_in_percent() {
    assert_eq!(progress_percent(0, 4), 25);
    assert_eq!(progress_percent(3, 4), 100);
    assert_eq!(progress_percent(0, 3), 33);
    assert_eq!(progress_percent(0, 200), 0);
}
