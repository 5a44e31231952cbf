use std::cmp::Ordering;

use dedup_index::hash_data::{
    compare_paths, find_entry, get_hash_data_file_path, plan_load, record_file, restore_index,
    FileEntry, HashDataLocation, LoadPlan, PathKind,
};
use dedup_index::errors::AppError;

fn entry(name: &str, size: u64, hash: &str, modified: u64) -> FileEntry {
    FileEntry {
        file_name: name.to_string(),
        file_size: size,
        hash: hash.to_string(),
        modified,
    }
}

fn names(index: &[FileEntry]) -> Vec<&str> {
    index.iter().map(|e| e.file_name.as_str()).collect()
}

fn abort_message(err: AppError) -> String {
    match err {
        AppError::Abort(abort) => abort.message,
        AppError::Caught(_) => panic!("expected a user-facing error"),
    }
}

#[test]
fn paths_compare_by_bytes() {
    assert_eq!(compare_paths("/a/b", "/a/c"), Ordering::Less);
    assert_eq!(compare_paths("/a/c", "/a/b"), Ordering::Greater);
    assert_eq!(compare_paths("/a", "/a/b"), Ordering::Less);
    assert_eq!(compare_paths("/a/b", "/a/b"), Ordering::Equal);
    assert_eq!(compare_paths("/B", "/a"), Ordering::Less);
    assert_eq!(compare_paths("/z", "/\u{e9}"), Ordering::Less);
    assert_eq!(compare_paths("", ""), Ordering::Equal);
}

#[test]
fn find_entry_reports_position() {
    let index = vec![entry("/a", 1, "h", 1), entry("/c", 1, "h", 1), entry("/e", 1, "h", 1)];
    assert_eq!(find_entry(&index, "/c"), Ok(1));
    assert_eq!(find_entry(&index, "/a"), Ok(0));
    assert_eq!(find_entry(&index, "/0"), Err(0));
    assert_eq!(find_entry(&index, "/d"), Err(2));
    assert_eq!(find_entry(&index, "/f"), Err(3));
    assert_eq!(find_entry(&Vec::new(), "/a"), Err(0));
}

#[test]
fn record_file_inserts_in_order() {
    let mut index = Vec::new();
    record_file(&mut index, entry("/m", 1, "h1", 1));
    record_file(&mut index, entry("/b", 2, "h2", 2));
    record_file(&mut index, entry("/z", 3, "h3", 3));
    record_file(&mut index, entry("/c", 4, "h4", 4));
    assert_eq!(names(&index), vec!["/b", "/c", "/m", "/z"]);
}

#[test]
fn record_file_updates_in_place() {
    let mut index = vec![entry("/a", 1, "old", 1), entry("/b", 2, "keep", 2)];
    record_file(&mut index, entry("/a", 9, "new", 7));
    assert_eq!(index.len(), 2);
    assert_eq!(index[0].hash, "new");
    assert_eq!(index[0].file_size, 9);
    assert_eq!(index[0].modified, 7);
    assert_eq!(index[1].hash, "keep");
}

#[test]
fn restore_sorts_records_in_any_order() {
    let saved = vec![
        entry("/a", 1, "h1", 10),
        entry("/b", 2, "h2", 20),
        entry("/c", 3, "h3", 30),
    ];
    let read_back = vec![saved[2].clone(), saved[0].clone(), saved[1].clone()];
    let restored = restore_index(read_back);
    assert_eq!(names(&restored), vec!["/a", "/b", "/c"]);
    for (got, want) in restored.iter().zip(saved.iter()) {
        assert_eq!(got.file_size, want.file_size);
        assert_eq!(got.hash, want.hash);
        assert_eq!(got.modified, want.modified);
    }
}

#[test]
fn restore_keeps_one_record_per_path() {
    let restored = restore_index(vec![
        entry("/b", 1, "h1", 1),
        entry("/a", 1, "h1", 1),
        entry("/b", 2, "h2", 2),
    ]);
    assert_eq!(names(&restored), vec!["/a", "/b"]);
    assert!(restore_index(Vec::new()).is_empty());
}

#[test]
fn snapshot_location_is_resolved() {
    let given = get_hash_data_file_path("/x/hash.json", PathKind::File, PathKind::Missing, false);
    assert_eq!(given.ok(), Some(HashDataLocation::Given));
    let inside = get_hash_data_file_path("/x", PathKind::Directory, PathKind::File, false);
    assert_eq!(inside.ok(), Some(HashDataLocation::Inside));
    let created = get_hash_data_file_path("/x", PathKind::Directory, PathKind::Missing, true);
    assert_eq!(created.ok(), Some(HashDataLocation::Inside));
}

#[test]
fn snapshot_location_errors() {
    let err = get_hash_data_file_path("/x", PathKind::Directory, PathKind::Missing, false)
        .err()
        .unwrap();
    assert_eq!(abort_message(err), "Comparison path does not contain hash data file");
    let err = get_hash_data_file_path("/nowhere", PathKind::Missing, PathKind::Missing, true)
        .err()
        .unwrap();
    assert_eq!(abort_message(err), "Comparison path /nowhere not found");
}

#[test]
fn load_plans() {
    assert_eq!(plan_load("/x/hash.json", PathKind::File, false).ok(), Some(LoadPlan::ReadSnapshot));
    assert_eq!(plan_load("/x/hash.json", PathKind::Missing, true).ok(), Some(LoadPlan::StartEmpty));
    let missing = plan_load("/x/hash.json", PathKind::Missing, false).err().unwrap();
    assert_eq!(abort_message(missing), "Comparison hash data file not found");
    let not_file = plan_load("/x/hash.json", PathKind::Directory, true).err().unwrap();
    assert_eq!(abort_message(not_file), "Expected /x/hash.json to be a file");
}
