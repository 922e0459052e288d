use git_chai::commit::{
    directory_commit_message, file_commit_message, plan_action, plan_commits, run_outcome,
    PlanAction, RunOutcome,
};
use git_chai::grouping::{ChangeGroup, FileChange};
use git_chai::types::ChangeType;

fn file_change(filename: &str, change_type: ChangeType) -> FileChange {
    FileChange {
        filename: filename.as_bytes().to_vec(),
        old_filename: None,
        change_type,
    }
}

#[test]
fn builds_file_messages() {
    let f = file_change("src/main.rs", ChangeType::Modify);
    assert_eq!(file_commit_message(&f), "mod: src/main.rs");

    let f = file_change("root.txt", ChangeType::Add);
    assert_eq!(file_commit_message(&f), "add: root.txt");

    let f = file_change("gone.txt", ChangeType::Delete);
    assert_eq!(file_commit_message(&f), "del: gone.txt");

    let mut f = file_change("src/b.rs", ChangeType::Rename);
    f.old_filename = Some(b"src/a.rs".to_vec());
    assert_eq!(file_commit_message(&f), "rename: src/a.rs -> src/b.rs");

    let mut f = file_change("copy.rs", ChangeType::Copy);
    f.old_filename = Some(b"orig.rs".to_vec());
    assert_eq!(file_commit_message(&f), "copy: orig.rs -> copy.rs");
}

#[test]
fn builds_directory_messages() {
    assert_eq!(
        directory_commit_message(b"src", ChangeType::Modify),
        "mod: src"
    );
    assert_eq!(
        directory_commit_message(b"newpkg", ChangeType::Add),
        "add: newpkg"
    );
}

#[test]
fn directory_messages_name_the_last_component() {
    assert_eq!(
        directory_commit_message(b"src/git", ChangeType::Delete),
        "del: git"
    );
    assert_eq!(
        directory_commit_message(b"newpkg/", ChangeType::Add),
        "add: newpkg"
    );
    assert_eq!(directory_commit_message(b"a/..", ChangeType::Add), "add: a/..");
    // A last component that is not UTF-8 falls back to the whole path, shown lossily.
    assert_eq!(
        directory_commit_message(b"dir/\xff", ChangeType::Modify),
        "mod: dir/\u{fffd}"
    );
}

#[test]
fn file_messages_show_paths_lossily() {
    let f = file_change("x", ChangeType::Modify);
    let f = FileChange { filename: b"bad\xfe.txt".to_vec(), ..f };
    assert_eq!(file_commit_message(&f), "mod: bad\u{fffd}.txt");
    // A source path on a plain change is not shown.
    let mut f = file_change("new.txt", ChangeType::Add);
    f.old_filename = Some(b"old.txt".to_vec());
    assert_eq!(file_commit_message(&f), "add: new.txt");
    // A rename that lost its source is named by its destination only.
    let f = file_change("b.rs", ChangeType::Rename);
    assert_eq!(file_commit_message(&f), "rename: b.rs");
}

#[test]
fn plans_one_commit_per_directory_and_per_file() {
    let mut renamed = file_change("src/b.rs", ChangeType::Rename);
    renamed.old_filename = Some(b"src/a.rs".to_vec());
    let groups = vec![
        ChangeGroup::Directory {
            path: b"docs".to_vec(),
            change_type: ChangeType::Modify,
            files: vec![
                file_change("docs/a.md", ChangeType::Modify),
                file_change("docs/b.md", ChangeType::Modify),
            ],
        },
        ChangeGroup::Individual {
            files: vec![file_change("root.txt", ChangeType::Add), renamed],
        },
    ];
    let plan = plan_commits(&groups);
    assert_eq!(plan.len(), 3);
    assert_eq!(plan[0].message, "mod: docs");
    assert_eq!(plan[0].paths, vec![b"docs/a.md".to_vec(), b"docs/b.md".to_vec()]);
    assert_eq!(plan[0].subject, b"docs".to_vec());
    assert!(plan[0].whole_directory);
    assert_eq!(plan[1].message, "add: root.txt");
    assert_eq!(plan[1].paths, vec![b"root.txt".to_vec()]);
    assert!(!plan[1].whole_directory);
    assert_eq!(plan[2].message, "rename: src/a.rs -> src/b.rs");
    assert_eq!(plan[2].paths, vec![b"src/a.rs".to_vec(), b"src/b.rs".to_vec()]);
    assert_eq!(plan[2].subject, b"src/b.rs".to_vec());
    assert_eq!(plan[2].change_type, ChangeType::Rename);
}

#[test]
fn dry_runs_commit_nothing() {
    match run_outcome(true, true, 4, &vec![]) {
        RunOutcome::DryRun { planned, push } => {
            assert_eq!(planned, 4);
            assert!(push);
        }
        other => panic!("expected a dry run, got {:?}", other),
    }
}

#[test]
fn failed_commits_fail_the_run() {
    match run_outcome(false, true, 2, &vec![true, false]) {
        RunOutcome::Failed { message } => {
            assert_eq!(message, "1 of 2 change(s) failed to commit")
        }
        other => panic!("expected a failure, got {:?}", other),
    }
    match run_outcome(false, false, 12, &vec![false; 12]) {
        RunOutcome::Failed { message } => {
            assert_eq!(message, "12 of 12 change(s) failed to commit")
        }
        other => panic!("expected a failure, got {:?}", other),
    }
}

#[test]
fn successful_runs_push_when_asked() {
    match run_outcome(false, true, 3, &vec![true, true, true]) {
        RunOutcome::Committed { count, push } => {
            assert_eq!(count, 3);
            assert!(push);
        }
        other => panic!("expected commits, got {:?}", other),
    }
    match run_outcome(false, false, 1, &vec![true]) {
        RunOutcome::Committed { count, push } => {
            assert_eq!(count, 1);
            assert!(!push);
        }
        other => panic!("expected commits, got {:?}", other),
    }
    assert!(matches!(
        run_outcome(false, true, 0, &vec![]),
        RunOutcome::NothingCommitted
    ));
}

#[test]
fn dry_runs_only_preview() {
    assert_eq!(plan_action(true), PlanAction::Preview);
    assert_eq!(plan_action(false), PlanAction::Commit);
}

#[test]
fn directory_messages_use_the_path_file_name() {
    assert_eq!(directory_commit_message(b"foo/.", ChangeType::Modify), "mod: foo");
    assert_eq!(directory_commit_message(b"a//b/", ChangeType::Add), "add: b");
    assert_eq!(directory_commit_message(b"a/..", ChangeType::Add), "add: a/..");
}
