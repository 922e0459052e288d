use git_chai::types::StatusCode::{
    Added, Copied, Deleted, Ignored, Modified, Renamed, TypeChanged, Unmerged, Unmodified, Untracked,
};
use git_chai::types::{ChangeType, GitStatus, StatusCode};

#[test]
fn parses_status_codes() {
    assert_eq!(StatusCode::from_char(' '), Some(StatusCode::Unmodified));
    assert_eq!(StatusCode::from_char('M'), Some(StatusCode::Modified));
    assert_eq!(StatusCode::from_char('A'), Some(StatusCode::Added));
    assert_eq!(StatusCode::from_char('D'), Some(StatusCode::Deleted));
    assert_eq!(StatusCode::from_char('R'), Some(StatusCode::Renamed));
    assert_eq!(StatusCode::from_char('C'), Some(StatusCode::Copied));
    assert_eq!(StatusCode::from_char('U'), Some(StatusCode::Unmerged));
    assert_eq!(StatusCode::from_char('T'), Some(StatusCode::TypeChanged));
    assert_eq!(StatusCode::from_char('?'), Some(StatusCode::Untracked));
    assert_eq!(StatusCode::from_char('!'), Some(StatusCode::Ignored));
    assert_eq!(StatusCode::from_char('X'), None);
}

#[test]
fn parses_status_pairs() {
    let s = GitStatus::parse(b"M ").unwrap();
    assert_eq!(s.index, StatusCode::Modified);
    assert_eq!(s.worktree, StatusCode::Unmodified);

    let s = GitStatus::parse(b" M").unwrap();
    assert_eq!(s.index, StatusCode::Unmodified);
    assert_eq!(s.worktree, StatusCode::Modified);

    let s = GitStatus::parse(b"??").unwrap();
    assert_eq!(s.worktree, StatusCode::Untracked);

    assert!(GitStatus::parse(b"X ").is_err());
    assert!(GitStatus::parse(b"M").is_err());
}

#[test]
fn displays_status_pairs() {
    let s = GitStatus {
        index: StatusCode::Modified,
        worktree: StatusCode::Unmodified,
    };
    assert_eq!(s.to_string(), "M ");
    let s = GitStatus {
        index: StatusCode::Unmodified,
        worktree: StatusCode::Untracked,
    };
    assert_eq!(s.to_string(), " ?");
}

#[test]
fn derives_change_types() {
    let st = |index, worktree| GitStatus { index, worktree };

    assert_eq!(
        ChangeType::from_status(&st(Unmodified, Untracked)),
        Some(ChangeType::Add)
    );
    assert_eq!(
        ChangeType::from_status(&st(Added, Unmodified)),
        Some(ChangeType::Add)
    );
    assert_eq!(
        ChangeType::from_status(&st(Modified, Unmodified)),
        Some(ChangeType::Modify)
    );
    assert_eq!(
        ChangeType::from_status(&st(Unmodified, Modified)),
        Some(ChangeType::Modify)
    );
    assert_eq!(
        ChangeType::from_status(&st(Modified, Modified)),
        Some(ChangeType::Modify)
    );
    assert_eq!(
        ChangeType::from_status(&st(Unmodified, Deleted)),
        Some(ChangeType::Delete)
    );
    assert_eq!(
        ChangeType::from_status(&st(Deleted, Unmodified)),
        Some(ChangeType::Delete)
    );
    assert_eq!(
        ChangeType::from_status(&st(Renamed, Unmodified)),
        Some(ChangeType::Rename)
    );
    assert_eq!(
        ChangeType::from_status(&st(Copied, Unmodified)),
        Some(ChangeType::Copy)
    );
    assert_eq!(
        ChangeType::from_status(&st(TypeChanged, Unmodified)),
        Some(ChangeType::Modify)
    );
    // Unmerged on either side never commits.
    assert_eq!(ChangeType::from_status(&st(Unmerged, Unmerged)), None);
    assert_eq!(ChangeType::from_status(&st(Added, Unmerged)), None);
    assert_eq!(ChangeType::from_status(&st(Unmerged, Added)), None);
    // Ignored never commits.
    assert_eq!(ChangeType::from_status(&st(Unmodified, Ignored)), None);
}

#[test]
fn displays_change_types() {
    assert_eq!(ChangeType::Add.to_string(), "add");
    assert_eq!(ChangeType::Modify.to_string(), "mod");
    assert_eq!(ChangeType::Delete.to_string(), "del");
    assert_eq!(ChangeType::Rename.to_string(), "rename");
    assert_eq!(ChangeType::Copy.to_string(), "copy");
}

const ALL_CODES: [StatusCode; 10] = [
    StatusCode::Unmodified,
    StatusCode::Modified,
    StatusCode::Added,
    StatusCode::Deleted,
    StatusCode::Renamed,
    StatusCode::Copied,
    StatusCode::Unmerged,
    StatusCode::TypeChanged,
    StatusCode::Untracked,
    StatusCode::Ignored,
];

#[test]
fn status_letters_round_trip() {
    for code in ALL_CODES {
        assert_eq!(StatusCode::from_char(code.as_char()), Some(code));
    }
}

#[test]
fn status_pairs_round_trip_through_their_text() {
    for index in ALL_CODES {
        for worktree in ALL_CODES {
            let s = GitStatus { index, worktree };
            let text = s.to_string();
            assert_eq!(GitStatus::parse(text.as_bytes()).unwrap(), s);
        }
    }
}

#[test]
fn unmerged_or_ignored_never_commit() {
    for code in ALL_CODES {
        for bad in [StatusCode::Unmerged, StatusCode::Ignored] {
            let a = GitStatus { index: code, worktree: bad };
            let b = GitStatus { index: bad, worktree: code };
            assert_eq!(ChangeType::from_status(&a), None);
            assert_eq!(ChangeType::from_status(&b), None);
        }
    }
}

#[test]
fn worktree_side_decides_over_index_side() {
    let s = GitStatus { index: StatusCode::Added, worktree: StatusCode::Deleted };
    assert_eq!(ChangeType::from_status(&s), Some(ChangeType::Delete));
    let s = GitStatus { index: StatusCode::Unmodified, worktree: StatusCode::Unmodified };
    assert_eq!(ChangeType::from_status(&s), None);
    let s = GitStatus { index: StatusCode::Renamed, worktree: StatusCode::Modified };
    assert_eq!(ChangeType::from_status(&s), Some(ChangeType::Rename));
    let s = GitStatus { index: StatusCode::Added, worktree: StatusCode::Untracked };
    assert_eq!(ChangeType::from_status(&s), Some(ChangeType::Add));
}

#[test]
fn status_parse_error_messages() {
    let e = GitStatus::parse(b"M").unwrap_err();
    assert_eq!(e.to_string(), "Parse error: expected 2 status bytes, got 1");
    let e = GitStatus::parse(b"MMM").unwrap_err();
    assert_eq!(e.to_string(), "Parse error: expected 2 status bytes, got 3");
    let e = GitStatus::parse(b"").unwrap_err();
    assert_eq!(e.to_string(), "Parse error: expected 2 status bytes, got 0");
    let e = GitStatus::parse(b"X ").unwrap_err();
    assert_eq!(e.to_string(), "Parse error: unknown index status code 'X'");
    let e = GitStatus::parse(b"MZ").unwrap_err();
    assert_eq!(e.to_string(), "Parse error: unknown worktree status code 'Z'");
    let e = GitStatus::parse(b"\n ").unwrap_err();
    assert_eq!(e.to_string(), "Parse error: unknown index status code '\\n'");
    let e = GitStatus::parse(b" \x01").unwrap_err();
    assert_eq!(e.to_string(), "Parse error: unknown worktree status code '\\u{1}'");
    let e = GitStatus::parse(b"\x7f ").unwrap_err();
    assert_eq!(e.to_string(), "Parse error: unknown index status code '\\u{7f}'");
    let e = GitStatus::parse(b"\\ ").unwrap_err();
    assert_eq!(e.to_string(), "Parse error: unknown index status code '\\\\'");
    for (byte, text) in [
        (b'\0', "'\\0'"),
        (b'\t', "'\\t'"),
        (b'\r', "'\\r'"),
        (b'\'', "'\\''"),
        (0x1b, "'\\u{1b}'"),
    ] {
        let e = GitStatus::parse(&[byte, b' ']).unwrap_err();
        assert_eq!(e.to_string(), format!("Parse error: unknown index status code {}", text));
    }
    let e = GitStatus::parse(b"\"M").unwrap_err();
    assert_eq!(e.to_string(), "Parse error: unknown index status code '\"'");
}
