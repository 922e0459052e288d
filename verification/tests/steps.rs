use git_chai::error::{command_failed, GitChaiError};
use git_chai::steps::CommitAction::{Fail, RemoveTempIndex, Run, Succeed};
use git_chai::steps::{next_commit_step, temp_index_path, CommitAction, CommitState, GitStep};

/// Drives the commit steps, answering each action in turn from `outcomes`
/// (the outcome of the action handed out before), and returns the actions.
fn drive(outcomes: &[bool]) -> Vec<CommitAction> {
    let mut state = CommitState::Start;
    let mut actions = Vec::new();
    let mut ok = true;
    let mut answers = outcomes.iter();
    while state != CommitState::Done {
        let (next, action) = next_commit_step(state, ok);
        state = next;
        actions.push(action);
        ok = *answers.next().unwrap_or(&true);
    }
    actions
}

fn words(args: &[Vec<u8>]) -> Vec<String> {
    args.iter()
        .map(|a| String::from_utf8(a.clone()).unwrap())
        .collect()
}

#[test]
fn commit_on_existing_head_seeds_then_syncs() {
    assert_eq!(
        drive(&[true, true, true, true, true, true]),
        vec![
            Run(GitStep::ProbeHead),
            Run(GitStep::SeedTempIndex),
            Run(GitStep::StagePaths),
            Run(GitStep::CommitTempIndex),
            RemoveTempIndex,
            Run(GitStep::SyncRealIndex),
            Succeed,
        ]
    );
}

#[test]
fn root_commit_starts_from_an_empty_index() {
    assert_eq!(
        drive(&[false, true, true, true, true]),
        vec![
            Run(GitStep::ProbeHead),
            Run(GitStep::StagePaths),
            Run(GitStep::CommitTempIndex),
            RemoveTempIndex,
            Run(GitStep::SyncRealIndex),
            Succeed,
        ]
    );
}

#[test]
fn failed_commit_cleans_up_and_never_touches_the_real_index() {
    assert_eq!(
        drive(&[true, true, true, false, true]),
        vec![
            Run(GitStep::ProbeHead),
            Run(GitStep::SeedTempIndex),
            Run(GitStep::StagePaths),
            Run(GitStep::CommitTempIndex),
            RemoveTempIndex,
            Fail,
        ]
    );
    assert_eq!(
        drive(&[true, false]),
        vec![
            Run(GitStep::ProbeHead),
            Run(GitStep::SeedTempIndex),
            RemoveTempIndex,
            Fail,
        ]
    );
    assert_eq!(
        drive(&[false, false]),
        vec![Run(GitStep::ProbeHead), Run(GitStep::StagePaths), RemoveTempIndex, Fail]
    );
}

#[test]
fn failed_sync_fails_the_commit() {
    let actions = drive(&[true, true, true, true, true, false]);
    assert_eq!(actions.last(), Some(&CommitAction::Fail));
    assert_eq!(actions[actions.len() - 2], CommitAction::Run(GitStep::SyncRealIndex));
}

#[test]
fn step_arguments_match_paths_literally() {
    let paths = vec![b"we[ird].txt".to_vec(), b"dir/with space.txt".to_vec()];
    assert_eq!(
        words(&GitStep::ProbeHead.arguments(&paths, "mod: x")),
        vec!["rev-parse", "--verify", "-q", "HEAD"]
    );
    assert_eq!(
        words(&GitStep::SeedTempIndex.arguments(&paths, "mod: x")),
        vec!["read-tree", "HEAD"]
    );
    assert_eq!(
        words(&GitStep::StagePaths.arguments(&paths, "mod: x")),
        vec![
            "add",
            "--all",
            "--",
            ":(literal)we[ird].txt",
            ":(literal)dir/with space.txt"
        ]
    );
    assert_eq!(
        words(&GitStep::CommitTempIndex.arguments(&paths, "mod: x")),
        vec!["commit", "-m", "mod: x"]
    );
    assert_eq!(
        words(&GitStep::SyncRealIndex.arguments(&paths, "mod: x")),
        vec![
            "reset",
            "-q",
            "--",
            ":(literal)we[ird].txt",
            ":(literal)dir/with space.txt"
        ]
    );
}

#[test]
fn only_seed_stage_and_commit_use_the_temporary_index() {
    assert!(!GitStep::ProbeHead.on_temp_index());
    assert!(GitStep::SeedTempIndex.on_temp_index());
    assert!(GitStep::StagePaths.on_temp_index());
    assert!(GitStep::CommitTempIndex.on_temp_index());
    assert!(!GitStep::SyncRealIndex.on_temp_index());
}

#[test]
fn temporary_index_lives_in_the_git_directory() {
    assert_eq!(
        temp_index_path(b"/repo/.git", 4242, 7),
        b"/repo/.git/index.git-chai.4242.7".to_vec()
    );
    assert_eq!(
        temp_index_path(b".git/", 1, 0),
        b".git/index.git-chai.1.0".to_vec()
    );
}

#[test]
fn failed_git_commands_name_the_command() {
    let args = vec![b"ls-files".to_vec(), b"-u".to_vec(), b"-z".to_vec()];
    match command_failed(&args, b"fatal: not a git repository\n") {
        GitChaiError::GitCommandError { command, stderr } => {
            assert_eq!(command, "git ls-files -u -z");
            assert_eq!(stderr, "fatal: not a git repository");
        }
        other => panic!("expected a git command error, got {:?}", other),
    }
    match command_failed(&Vec::new(), b"  \n") {
        GitChaiError::GitCommandError { command, stderr } => {
            assert_eq!(command, "git ");
            assert_eq!(stderr, "");
        }
        other => panic!("expected a git command error, got {:?}", other),
    }
}
