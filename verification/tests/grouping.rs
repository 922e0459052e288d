use std::path::PathBuf;

use git_chai::grouping::{
    directories_to_list, directory_listing, group_changes_by_directory, parse_ls_files,
    ChangeGroup, DirectoryListing, FileChange,
};
use git_chai::status::scan_changes;
use git_chai::types::ChangeType;

fn path(bytes: &[u8]) -> PathBuf {
    PathBuf::from(String::from_utf8(bytes.to_vec()).unwrap())
}

/// Groups the changes that `status_output` (as `git status --porcelain -z`
/// prints it) describes, answering each listing request from `tree`: the
/// `git ls-files -z` output for tracked and for untracked files of each
/// directory.
fn group(status_output: &[u8], tree: &[(&str, &[u8], &[u8])]) -> Vec<ChangeGroup> {
    let scan = scan_changes(status_output, b"").unwrap();
    let wanted = directories_to_list(&scan.changes);
    let mut listings: Vec<DirectoryListing> = Vec::new();
    for dir in &wanted {
        let (listed, others) = tree
            .iter()
            .find(|(d, _, _)| d.as_bytes() == dir.as_slice())
            .map(|(_, t, o)| (*t, *o))
            .unwrap_or((b"", b""));
        listings.push(directory_listing(dir, listed, others));
    }
    group_changes_by_directory(scan.changes, &listings)
}

#[test]
fn grouping_directory_commit_when_whole_dir_changes() {
    let groups = group(
        b" M src/a.rs\0 M src/b.rs\0",
        &[("src", b"src/a.rs\0src/b.rs\0", b"")],
    );
    assert_eq!(groups.len(), 1);
    match &groups[0] {
        ChangeGroup::Directory {
            path: p,
            change_type,
            files,
        } => {
            assert_eq!(path(p), PathBuf::from("src"));
            assert_eq!(*change_type, ChangeType::Modify);
            assert_eq!(files.len(), 2);
        }
        other => panic!("expected directory group, got {:?}", other),
    }
}

#[test]
fn partial_directory_goes_individual() {
    let groups = group(b" M src/a.rs\0", &[("src", b"src/a.rs\0src/b.rs\0", b"")]);
    assert_eq!(groups.len(), 1);
    match &groups[0] {
        ChangeGroup::Individual { files } => assert_eq!(files.len(), 1),
        other => panic!("expected individual group, got {:?}", other),
    }
}

#[test]
fn count_mismatch_never_triggers_directory_commit() {
    // One tracked file plus one untracked root file: the root group stays
    // individual; only src/ collapses, because every file in it changed.
    let groups = group(
        b" M src/a.rs\0?? root.txt\0",
        &[("src", b"src/a.rs\0", b"")],
    );
    assert_eq!(groups.len(), 2, "expected two groups, got {:?}", groups);
    match &groups[0] {
        ChangeGroup::Individual { files } => {
            assert_eq!(files.len(), 1);
            assert_eq!(path(&files[0].filename), PathBuf::from("root.txt"));
            assert_eq!(files[0].change_type, ChangeType::Add);
        }
        other => panic!("expected individual root group, got {:?}", other),
    }
    match &groups[1] {
        ChangeGroup::Directory {
            path: p,
            change_type,
            files,
        } => {
            assert_eq!(path(p), PathBuf::from("src"));
            assert_eq!(*change_type, ChangeType::Modify);
            assert_eq!(files.len(), 1);
        }
        other => panic!("expected directory src group, got {:?}", other),
    }
}

#[test]
fn untracked_directory_becomes_add_group() {
    let groups = group(b"?? newpkg/\0", &[]);
    assert_eq!(groups.len(), 1);
    match &groups[0] {
        ChangeGroup::Directory {
            path: p,
            change_type,
            ..
        } => {
            assert_eq!(path(p), PathBuf::from("newpkg"));
            assert_eq!(*change_type, ChangeType::Add);
        }
        other => panic!("expected directory group, got {:?}", other),
    }
}

#[test]
fn mixed_types_go_individual() {
    let groups = group(
        b" M src/a.rs\0 D src/b.rs\0",
        &[("src", b"src/a.rs\0src/b.rs\0", b"")],
    );
    assert_eq!(groups.len(), 1);
    match &groups[0] {
        ChangeGroup::Individual { files } => {
            assert_eq!(files.len(), 2);
            assert_eq!(files[0].change_type, ChangeType::Modify);
            assert_eq!(files[1].change_type, ChangeType::Delete);
        }
        other => panic!("expected individual group, got {:?}", other),
    }
}

#[test]
fn renames_always_go_individual() {
    let groups = group(b"R  src/b.rs\0src/a.rs\0", &[("src", b"src/b.rs\0", b"")]);
    assert_eq!(groups.len(), 1);
    match &groups[0] {
        ChangeGroup::Individual { files } => {
            assert_eq!(files[0].change_type, ChangeType::Rename);
            assert_eq!(path(&files[0].filename), PathBuf::from("src/b.rs"));
            assert_eq!(
                files[0].old_filename.as_deref().map(path),
                Some(PathBuf::from("src/a.rs"))
            );
        }
        other => panic!("expected individual group, got {:?}", other),
    }
}

#[test]
fn only_uniform_candidate_directories_are_listed() {
    let scan = scan_changes(
        b" M src/a.rs\0 M src/b.rs\0 M lib/x.rs\0 D lib/y.rs\0R  doc/n.md\0doc/o.md\0?? top.txt\0?? pkg/\0",
        b"",
    )
    .unwrap();
    let wanted = directories_to_list(&scan.changes);
    assert_eq!(wanted, vec![b"src".to_vec()]);
}

#[test]
fn untracked_files_count_towards_whole_directory() {
    // A new file beside the modified one keeps the directory from being
    // committed as a whole when only the modification is in the change set.
    let groups = group(b" M src/a.rs\0", &[("src", b"src/a.rs\0", b"src/new.rs\0")]);
    assert_eq!(groups.len(), 1);
    assert!(matches!(&groups[0], ChangeGroup::Individual { .. }));
}

#[test]
fn groups_come_in_path_order() {
    // "a/b" sorts before "a-b": paths compare component by component.
    let groups = group(
        b" M a-b/x.rs\0 D a/b/y.rs\0 M z.txt\0 M a.txt\0",
        &[("a-b", b"a-b/x.rs\0", b""), ("a/b", b"a/b/y.rs\0", b"")],
    );
    assert_eq!(groups.len(), 3);
    match &groups[0] {
        ChangeGroup::Directory { path: p, change_type, .. } => {
            assert_eq!(path(p), PathBuf::from("a/b"));
            assert_eq!(*change_type, ChangeType::Delete);
        }
        other => panic!("expected a/b first, got {:?}", other),
    }
    match &groups[1] {
        ChangeGroup::Directory { path: p, .. } => assert_eq!(path(p), PathBuf::from("a-b")),
        other => panic!("expected a-b, got {:?}", other),
    }
    // The root files keep their order; their group sorts by its first file.
    match &groups[2] {
        ChangeGroup::Individual { files } => {
            assert_eq!(files.len(), 2);
            assert_eq!(path(&files[0].filename), PathBuf::from("z.txt"));
            assert_eq!(path(&files[1].filename), PathBuf::from("a.txt"));
        }
        other => panic!("expected the root files last, got {:?}", other),
    }
}

#[test]
fn every_change_lands_in_exactly_one_group() {
    let groups = group(
        b" M src/a.rs\0 M src/b.rs\0 M lib/x.rs\0 D lib/y.rs\0?? top.txt\0?? pkg/\0",
        &[("src", b"src/a.rs\0src/b.rs\0", b"")],
    );
    let mut names: Vec<Vec<u8>> = Vec::new();
    for g in &groups {
        let files = match g {
            ChangeGroup::Directory { files, .. } => files,
            ChangeGroup::Individual { files } => files,
        };
        for f in files {
            names.push(f.filename.clone());
        }
    }
    names.sort();
    let mut expected: Vec<Vec<u8>> = vec![
        b"src/a.rs".to_vec(),
        b"src/b.rs".to_vec(),
        b"lib/x.rs".to_vec(),
        b"lib/y.rs".to_vec(),
        b"top.txt".to_vec(),
        b"pkg/".to_vec(),
    ];
    expected.sort();
    assert_eq!(names, expected);
}

#[test]
fn ls_files_output_is_split_on_nul() {
    assert_eq!(
        parse_ls_files(b"a.txt\0dir/b c.txt\0\0"),
        vec![b"a.txt".to_vec(), b"dir/b c.txt".to_vec()]
    );
    assert!(parse_ls_files(b"").is_empty());
    let l = directory_listing(b"src", b"src/a.rs\0", b"src/new.rs\0");
    assert_eq!(l.dir, b"src".to_vec());
    assert_eq!(l.files, vec![b"src/a.rs".to_vec(), b"src/new.rs".to_vec()]);
}

#[test]
fn file_changes_keep_the_paths_of_their_change() {
    let scan = scan_changes(b"R  src/b.rs\0src/a.rs\0", b"").unwrap();
    let change = scan.changes[0].clone();
    let f = FileChange::from(change);
    assert_eq!(f.filename, b"src/b.rs".to_vec());
    assert_eq!(f.old_filename, Some(b"src/a.rs".to_vec()));
    assert_eq!(f.change_type, ChangeType::Rename);
}

#[test]
fn sort_keys_are_the_directory_or_the_first_file() {
    let groups = group(
        b" M src/a.rs\0 M src/b.rs\0 M top.txt\0 M other.txt\0",
        &[("src", b"src/a.rs\0src/b.rs\0", b"")],
    );
    assert_eq!(groups.len(), 2);
    assert_eq!(groups[0].sort_key(), b"src".to_vec());
    assert_eq!(groups[1].sort_key(), b"top.txt".to_vec());
    let empty = ChangeGroup::Individual { files: Vec::new() };
    assert_eq!(empty.sort_key(), Vec::<u8>::new());
}

#[test]
fn dot_components_do_not_split_a_directory() {
    let groups = group(b" M x/b\0 M x/./y\0", &[]);
    assert_eq!(groups.len(), 1);
    match &groups[0] {
        ChangeGroup::Individual { files } => {
            assert_eq!(files.len(), 2);
            assert_eq!(files[0].filename, b"x/b".to_vec());
            assert_eq!(files[1].filename, b"x/./y".to_vec());
        }
        other => panic!("expected one individual group, got {:?}", other),
    }
    let whole = group(b" M x/b\0 M x/./y\0", &[("x", b"x/b\0x/y\0", b"")]);
    match &whole[0] {
        ChangeGroup::Directory { path: p, files, .. } => {
            assert_eq!(path(p), PathBuf::from("x"));
            assert_eq!(files.len(), 2);
        }
        other => panic!("expected directory x, got {:?}", other),
    }
}

#[test]
fn a_trailing_dot_is_a_root_level_file() {
    // "x/." is "x" as a path, which lies at the top of the working tree.
    let groups = group(b" M x/.\0 D x/b\0", &[("x", b"x/b\0", b"")]);
    assert_eq!(groups.len(), 2);
    match &groups[0] {
        ChangeGroup::Individual { files } => {
            assert_eq!(files.len(), 1);
            assert_eq!(files[0].filename, b"x/.".to_vec());
        }
        other => panic!("expected the root-level x/. alone, got {:?}", other),
    }
    match &groups[1] {
        ChangeGroup::Directory { path: p, files, .. } => {
            assert_eq!(path(p), PathBuf::from("x"));
            assert_eq!(files[0].filename, b"x/b".to_vec());
        }
        other => panic!("expected directory x, got {:?}", other),
    }
}

#[test]
fn untracked_directories_need_utf8_names() {
    let groups = group(b"?? \xff/\0", &[]);
    assert_eq!(groups.len(), 1);
    match &groups[0] {
        ChangeGroup::Individual { files } => assert_eq!(files[0].filename, b"\xff/".to_vec()),
        other => panic!("expected an individual group, got {:?}", other),
    }
}
