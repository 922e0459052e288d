use std::path::PathBuf;

use git_chai::status::{parse_porcelain, scan_changes, split_nul_fields, unmerged_paths};
use git_chai::types::{ChangeType, StatusCode};

fn path(bytes: &[u8]) -> PathBuf {
    PathBuf::from(String::from_utf8(bytes.to_vec()).unwrap())
}

#[test]
fn parses_plain_records() {
    let changes = parse_porcelain(b" M file.txt\0M  staged.txt\0?? new.txt\0").unwrap();
    assert_eq!(changes.len(), 3);
    assert_eq!(path(&changes[0].filename), PathBuf::from("file.txt"));
    assert_eq!(path(&changes[1].filename), PathBuf::from("staged.txt"));
    assert_eq!(path(&changes[2].filename), PathBuf::from("new.txt"));
    assert!(changes[2].old_filename.is_none());
    assert_eq!(
        ChangeType::from_status(&changes[0].status),
        Some(ChangeType::Modify)
    );
    assert_eq!(
        ChangeType::from_status(&changes[2].status),
        Some(ChangeType::Add)
    );
}

#[test]
fn parses_rename_as_new_then_old() {
    let changes = parse_porcelain(b"R  a2.txt\0a.txt\0").unwrap();
    assert_eq!(changes.len(), 1);
    assert_eq!(path(&changes[0].filename), PathBuf::from("a2.txt"));
    assert_eq!(
        changes[0].old_filename.as_deref().map(path),
        Some(PathBuf::from("a.txt"))
    );
    assert_eq!(
        ChangeType::from_status(&changes[0].status),
        Some(ChangeType::Rename)
    );
}

#[test]
fn parses_copy() {
    let changes = parse_porcelain(b"C  copy.txt\0orig.txt\0").unwrap();
    assert_eq!(changes.len(), 1);
    assert_eq!(path(&changes[0].filename), PathBuf::from("copy.txt"));
    assert_eq!(
        changes[0].old_filename.as_deref().map(path),
        Some(PathBuf::from("orig.txt"))
    );
    assert_eq!(
        ChangeType::from_status(&changes[0].status),
        Some(ChangeType::Copy)
    );
}

#[test]
fn parses_untracked_directory_with_trailing_slash() {
    let changes = parse_porcelain(b"?? newpkg/\0").unwrap();
    assert_eq!(changes.len(), 1);
    assert_eq!(path(&changes[0].filename), PathBuf::from("newpkg/"));
    assert_eq!(
        ChangeType::from_status(&changes[0].status),
        Some(ChangeType::Add)
    );
}

#[test]
fn preserves_spaces_in_paths() {
    let changes = parse_porcelain(b" M dir/with space.txt\0").unwrap();
    assert_eq!(changes.len(), 1);
    assert_eq!(
        path(&changes[0].filename),
        PathBuf::from("dir/with space.txt")
    );
}

#[test]
fn keeps_unmerged_records_for_later_filtering() {
    // Classification happens in scan_changes so the skip can be reported;
    // parsing must not silently drop these.
    let changes = parse_porcelain(b"UU conflict.txt\0").unwrap();
    assert_eq!(changes.len(), 1);
    assert_eq!(
        ChangeType::from_status(&changes[0].status),
        None,
        "unmerged statuses must not produce a change type"
    );
}

#[test]
fn rejects_unknown_status_codes() {
    assert!(parse_porcelain(b"X  file.txt\0").is_err());
    assert!(parse_porcelain(b" M file.txt\0X  other.txt\0").is_err());
}

#[test]
fn tolerates_trailing_nul_and_garbage() {
    let changes = parse_porcelain(b" M a.txt\0\0XY\0").unwrap();
    assert_eq!(changes.len(), 1);
    assert_eq!(path(&changes[0].filename), PathBuf::from("a.txt"));
}

#[test]
fn splits_fields_like_slice_split() {
    assert_eq!(split_nul_fields(b""), vec![Vec::<u8>::new()]);
    assert_eq!(
        split_nul_fields(b"a\0\0bc\0"),
        vec![b"a".to_vec(), vec![], b"bc".to_vec(), vec![]]
    );
}

#[test]
fn rename_at_the_end_keeps_no_source() {
    // The rename record is the last field: there is no source field to take.
    let changes = parse_porcelain(b"R  a2.txt").unwrap();
    assert_eq!(changes.len(), 1);
    assert!(changes[0].old_filename.is_none());
    // A record with an empty path is dropped, its source field still consumed.
    let changes = parse_porcelain(b"R  \0a.txt\0 M b.txt\0").unwrap();
    assert_eq!(changes.len(), 1);
    assert_eq!(path(&changes[0].filename), PathBuf::from("b.txt"));
}

#[test]
fn unknown_codes_report_the_first_bad_record() {
    let e = parse_porcelain(b" M ok.txt\0MQ bad.txt\0Z  worse.txt\0").unwrap_err();
    assert_eq!(e.to_string(), "Parse error: unknown worktree status code 'Q'");
}

#[test]
fn reads_unmerged_index_entries() {
    let raw = b"100644 aaaa 1\tconflict.txt\0100644 bbbb 2\tconflict.txt\0no tab here\0100644 cccc 3\t\0";
    let paths = unmerged_paths(raw);
    assert_eq!(paths, vec![b"conflict.txt".to_vec(), b"conflict.txt".to_vec()]);
    assert!(unmerged_paths(b"").is_empty());
}

#[test]
fn scans_skip_conflicts_and_ignored_paths() {
    let status = b"UU both.txt\0AA added-twice.txt\0 M fine.txt\0!! ignored.log\0?? new.txt\0";
    let unmerged = b"100644 aaaa 2\tadded-twice.txt\0100644 bbbb 3\tadded-twice.txt\0";
    let scan = scan_changes(status, unmerged).unwrap();
    assert_eq!(scan.changes.len(), 2);
    assert_eq!(scan.changes[0].filename, b"fine.txt".to_vec());
    assert_eq!(scan.changes[0].change_type, ChangeType::Modify);
    assert_eq!(scan.changes[1].filename, b"new.txt".to_vec());
    assert_eq!(scan.changes[1].change_type, ChangeType::Add);
    assert_eq!(scan.changes[1].status.worktree, StatusCode::Untracked);
    assert_eq!(
        scan.unmerged,
        vec![b"both.txt".to_vec(), b"added-twice.txt".to_vec()]
    );
    assert_eq!(scan.ignored, vec![b"ignored.log".to_vec()]);
}

#[test]
fn scans_report_parse_errors() {
    let e = scan_changes(b"?X odd\0", b"").err().unwrap();
    assert_eq!(e.to_string(), "Parse error: unknown worktree status code 'X'");
}

#[test]
fn unmerged_paths_are_compared_as_paths() {
    let scan = scan_changes(b" M a//b\0 M a/./c\0 M other\0", b"100644 aaaa 1\ta/b\0100644 bbbb 2\ta/c\0").unwrap();
    assert_eq!(scan.changes.len(), 1);
    assert_eq!(scan.changes[0].filename, b"other".to_vec());
    assert_eq!(scan.unmerged, vec![b"a//b".to_vec(), b"a/./c".to_vec()]);
}
