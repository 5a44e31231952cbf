use dedup_index::byte_size::ByteSize;
use dedup_index::duplicate_report::{find_duplicates, format_file_size, DuplicateGroup};
use dedup_index::errors::{AppError, AppErrorResult, CaughtError};
use dedup_index::hash_data::FileEntry;

fn entry(name: &str, size: u64, hash: &str) -> FileEntry {
    FileEntry {
        file_name: name.to_string(),
        file_size: size,
        hash: hash.to_string(),
        modified: 0,
    }
}

fn group_names(group: &DuplicateGroup) -> Vec<&str> {
    group.files.iter().map(|e| e.file_name.as_str()).collect()
}

#[test]
fn groups_records_with_equal_digests() {
    let data = vec![entry("A", 10, "x"), entry("B", 10, "x"), entry("C", 20, "y")];
    let groups = find_duplicates(data, None, None);
    assert_eq!(groups.len(), 1);
    assert_eq!(groups[0].hash, "x");
    assert_eq!(group_names(&groups[0]), vec!["A", "B"]);
}

#[test]
fn threshold_excludes_small_groups() {
    let data = vec![entry("A", 10, "x"), entry("B", 10, "x"), entry("C", 60, "y"), entry("D", 60, "y")];
    let groups = find_duplicates(data, None, Some(ByteSize::Byte(50)));
    assert_eq!(groups.len(), 1);
    assert_eq!(groups[0].hash, "y");
    let at_threshold = find_duplicates(
        vec![entry("A", 50, "x"), entry("B", 50, "x")],
        None,
        Some(ByteSize::Byte(50)),
    );
    assert_eq!(at_threshold.len(), 1);
}

#[test]
fn empty_files_are_dropped_by_default_threshold() {
    let data = vec![entry("A", 0, "e"), entry("B", 0, "e")];
    assert!(find_duplicates(data, None, None).is_empty());
    let data = vec![entry("A", 0, "e"), entry("B", 0, "e")];
    assert_eq!(find_duplicates(data, None, Some(ByteSize::Byte(0))).len(), 1);
}

#[test]
fn groups_come_largest_first() {
    let data = vec![
        entry("s1", 5, "s"),
        entry("l1", 500, "l"),
        entry("m1", 50, "m"),
        entry("s2", 5, "s"),
        entry("m2", 50, "m"),
        entry("l2", 500, "l"),
    ];
    let groups = find_duplicates(data, None, None);
    let sizes: Vec<u64> = groups.iter().map(|g| g.files[0].file_size).collect();
    assert_eq!(sizes, vec![500, 50, 5]);
}

#[test]
fn second_index_joins_the_groups() {
    let data = vec![entry("/one/a", 10, "x"), entry("/one/b", 30, "z")];
    let other = vec![entry("/two/a", 10, "x"), entry("/two/c", 20, "w")];
    let groups = find_duplicates(data, Some(other), None);
    assert_eq!(groups.len(), 1);
    assert_eq!(group_names(&groups[0]), vec!["/one/a", "/two/a"]);
}

#[test]
fn oversized_threshold_reports_nothing() {
    let data = vec![entry("A", u64::MAX, "x"), entry("B", u64::MAX, "x")];
    assert!(find_duplicates(data, None, Some(ByteSize::TiByte(u64::MAX))).is_empty());
}

#[test]
fn sizes_are_truncated_to_their_unit() {
    assert_eq!(format_file_size(0), (0, "B"));
    assert_eq!(format_file_size(999), (999, "B"));
    assert_eq!(format_file_size(1_000), (1, "KB"));
    assert_eq!(format_file_size(1_999), (1, "KB"));
    assert_eq!(format_file_size(999_999_999), (999, "MB"));
    assert_eq!(format_file_size(1_000_000_000), (1, "GB"));
    assert_eq!(format_file_size(1_500_000_000_000), (1, "TB"));
    assert_eq!(format_file_size(u64::MAX), (18_446_744, "TB"));
}

#[test]
fn errors_carry_their_text() {
    match AppError::new("stop".to_string()) {
        AppError::Abort(abort) => assert_eq!(abort.message, "stop"),
        AppError::Caught(_) => panic!("expected a user-facing error"),
    }
    let located: Result<u8, CaughtError> =
        Err(CaughtError { caller: "Error at main.rs:3".to_string(), error: "gone".to_string() });
    let err = located.app_err().err().unwrap();
    assert!(!err.is_abort());
    assert_eq!(err.to_message(), "Error at main.rs:3 gone");
    let fine: Result<u8, CaughtError> = Ok(4);
    assert_eq!(fine.app_err().ok(), Some(4));
}
