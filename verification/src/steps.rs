//! The steps that commit exactly a given set of paths: the paths are staged
//! into a temporary index seeded from HEAD, committed from there, and only
//! then is the real index brought up to date for those paths alone.
use vstd::prelude::*;
use vstd::utf8::encode_utf8;

use crate::paths::{join_path, join_paths, literal_pathspec, literal_prefix};
use crate::status::byte_strings;
use crate::text::{decimal, decimal_text, text_bytes};

verus! {

/// A git invocation made while committing a set of paths.
#[derive(Debug, Clone, Copy, PartialEq, Eq, Structural)]
pub enum GitStep {
    /// `git rev-parse --verify -q HEAD`: does HEAD exist yet?
    ProbeHead,
    /// `git read-tree HEAD` into the temporary index.
    SeedTempIndex,
    /// `git add --all -- <paths>` into the temporary index.
    StagePaths,
    /// `git commit -m <message>` from the temporary index.
    CommitTempIndex,
    /// `git reset -q -- <paths>` on the real index.
    SyncRealIndex,
}

/// What to do next while committing a set of paths.
#[derive(Debug, Clone, Copy, PartialEq, Eq, Structural)]
pub enum CommitAction {
    /// Run a git step and report whether it succeeded.
    Run(GitStep),
    /// Delete the temporary index file; a failure to do so is only worth a
    /// warning.
    RemoveTempIndex,
    /// The commit was made and the real index is in sync: done.
    Succeed,
    /// The commit failed with the error of the git step that failed last.
    Fail,
}

/// How far committing a set of paths has come.
#[derive(Debug, Clone, Copy, PartialEq, Eq, Structural)]
pub enum CommitState {
    /// Nothing has been done yet.
    Start,
    /// The step was handed out; its outcome is awaited.
    Awaiting(GitStep),
    /// The temporary index is being removed; `committed` tells whether the
    /// commit was made.
    CleaningUp { committed: bool },
    /// A verdict was given.
    Done,
}

/// The step after `s` when the action last handed out ended with `ok`
/// (ignored at the start and after removing the temporary index): the next
/// state and the action to perform.
pub open spec fn commit_transition(s: CommitState, ok: bool) -> (CommitState, CommitAction) {
    let run = |step: GitStep| (CommitState::Awaiting(step), CommitAction::Run(step));
    let clean = |committed: bool|
        (CommitState::CleaningUp { committed }, CommitAction::RemoveTempIndex);
    match s {
        CommitState::Start => run(GitStep::ProbeHead),
        CommitState::Awaiting(step) => match step {
            GitStep::ProbeHead => if ok {
                run(GitStep::SeedTempIndex)
            } else {
                run(GitStep::StagePaths)
            },
            GitStep::SeedTempIndex => if ok {
                run(GitStep::StagePaths)
            } else {
                clean(false)
            },
            GitStep::StagePaths => if ok {
                run(GitStep::CommitTempIndex)
            } else {
                clean(false)
            },
            GitStep::CommitTempIndex => clean(ok),
            GitStep::SyncRealIndex => (
                CommitState::Done,
                if ok {
                    CommitAction::Succeed
                } else {
                    CommitAction::Fail
                },
            ),
        },
        CommitState::CleaningUp { committed } => if committed {
            run(GitStep::SyncRealIndex)
        } else {
            (CommitState::Done, CommitAction::Fail)
        },
        CommitState::Done => (CommitState::Done, CommitAction::Fail),
    }
}

/// The next step of committing a set of paths, given the state and whether
/// the action last handed out succeeded.
pub fn next_commit_step(state: CommitState, ok: bool) -> (r: (CommitState, CommitAction))
    requires
        !(state is Done),
    ensures
        r == commit_transition(state, ok),
{
    match state {
        CommitState::Start => (CommitState::Awaiting(GitStep::ProbeHead), CommitAction::Run(
            GitStep::ProbeHead,
        )),
        CommitState::Awaiting(step) => match step {
            GitStep::ProbeHead => {
                let next = if ok {
                    GitStep::SeedTempIndex
                } else {
                    GitStep::StagePaths
                };
                (CommitState::Awaiting(next), CommitAction::Run(next))
            },
            GitStep::SeedTempIndex | GitStep::StagePaths => {
                if ok {
                    let next = if step == GitStep::SeedTempIndex {
                        GitStep::StagePaths
                    } else {
                        GitStep::CommitTempIndex
                    };
                    (CommitState::Awaiting(next), CommitAction::Run(next))
                } else {
                    (CommitState::CleaningUp { committed: false }, CommitAction::RemoveTempIndex)
                }
            },
            GitStep::CommitTempIndex => (
                CommitState::CleaningUp { committed: ok },
                CommitAction::RemoveTempIndex,
            ),
            GitStep::SyncRealIndex => {
                if ok {
                    (CommitState::Done, CommitAction::Succeed)
                } else {
                    (CommitState::Done, CommitAction::Fail)
                }
            },
        },
        CommitState::CleaningUp { committed } => {
            if committed {
                (CommitState::Awaiting(GitStep::SyncRealIndex), CommitAction::Run(
                    GitStep::SyncRealIndex,
                ))
            } else {
                (CommitState::Done, CommitAction::Fail)
            }
        },
        CommitState::Done => (CommitState::Done, CommitAction::Fail),
    }
}

/// The actions handed out from state `s` when the actions end with
/// `outcomes` in turn: `outcomes[0]` is the outcome of what came before `s`,
/// `outcomes[k]` that of the action handed out `k`-th. It stops at the
/// verdict.
pub open spec fn commit_run(s: CommitState, outcomes: Seq<bool>) -> Seq<CommitAction>
    decreases outcomes.len(),
{
    if outcomes.len() == 0 || s is Done {
        Seq::empty()
    } else {
        let (n, a) = commit_transition(s, outcomes[0]);
        seq![a] + commit_run(n, outcomes.drop_first())
    }
}

/// Whether an action is a verdict.
pub open spec fn is_verdict(a: CommitAction) -> bool {
    a is Succeed || a is Fail
}

/// Seeding follows the HEAD probe: a run first asks whether HEAD exists,
/// then seeds the temporary index from HEAD when it does, and otherwise
/// stages the paths into an empty index (the root commit).
pub proof fn law_seed_only_from_existing_head(outcomes: Seq<bool>)
    requires
        outcomes.len() >= 2,
    ensures
        commit_run(CommitState::Start, outcomes)[0] == CommitAction::Run(GitStep::ProbeHead),
        commit_run(CommitState::Start, outcomes)[1] == if outcomes[1] {
            CommitAction::Run(GitStep::SeedTempIndex)
        } else {
            CommitAction::Run(GitStep::StagePaths)
        },
{
    reveal_with_fuel(commit_run, 3);
}

/// Every run gives its verdict within seven actions, as its last action.
pub proof fn law_commit_reaches_verdict(outcomes: Seq<bool>)
    requires
        outcomes.len() >= 7,
    ensures
        ({
            let r = commit_run(CommitState::Start, outcomes);
            &&& 0 < r.len() <= 7
            &&& is_verdict(r.last())
            &&& forall|k: int| 0 <= k < r.len() - 1 ==> !is_verdict(#[trigger] r[k])
        }),
{
    reveal_with_fuel(commit_run, 8);
}

/// No verdict without cleanup: the temporary index file is deleted right
/// before the verdict, or right before the step that syncs the real index.
pub proof fn law_temp_index_removed_before_verdict(outcomes: Seq<bool>, k: int)
    requires
        0 <= k < commit_run(CommitState::Start, outcomes).len(),
        is_verdict(commit_run(CommitState::Start, outcomes)[k]),
    ensures
        ({
            let r = commit_run(CommitState::Start, outcomes);
            ||| k >= 1 && r[k - 1] == CommitAction::RemoveTempIndex
            ||| k >= 2 && r[k - 1] == CommitAction::Run(GitStep::SyncRealIndex) && r[k - 2]
                == CommitAction::RemoveTempIndex
        }),
{
    reveal_with_fuel(commit_run, 8);
}

/// The real index is touched only after the commit was made: the step that
/// syncs it comes right after the successful commit step and the removal of
/// the temporary index.
pub proof fn law_real_index_synced_only_after_commit(outcomes: Seq<bool>, k: int)
    requires
        0 <= k < commit_run(CommitState::Start, outcomes).len(),
        commit_run(CommitState::Start, outcomes)[k] == CommitAction::Run(GitStep::SyncRealIndex),
    ensures
        ({
            let r = commit_run(CommitState::Start, outcomes);
            &&& k >= 2
            &&& r[k - 2] == CommitAction::Run(GitStep::CommitTempIndex)
            &&& outcomes[k - 1]
            &&& r[k - 1] == CommitAction::RemoveTempIndex
        }),
{
    reveal_with_fuel(commit_run, 8);
}

/// Success means that the commit was made and the real index synced.
pub proof fn law_success_means_committed(outcomes: Seq<bool>, k: int)
    requires
        0 <= k < commit_run(CommitState::Start, outcomes).len(),
        commit_run(CommitState::Start, outcomes)[k] == CommitAction::Succeed,
    ensures
        ({
            let r = commit_run(CommitState::Start, outcomes);
            &&& k >= 3
            &&& r[k - 3] == CommitAction::Run(GitStep::CommitTempIndex)
            &&& outcomes[k - 2]
            &&& r[k - 2] == CommitAction::RemoveTempIndex
            &&& r[k - 1] == CommitAction::Run(GitStep::SyncRealIndex)
            &&& outcomes[k]
        }),
{
    reveal_with_fuel(commit_run, 8);
}

/// A failure always has a cause whose error is reported: the sync step
/// failed right before, or a seeding, staging or commit step failed right
/// before the temporary index was removed. A missing HEAD is no failure.
pub proof fn law_failure_has_cause(outcomes: Seq<bool>, k: int)
    requires
        0 <= k < commit_run(CommitState::Start, outcomes).len(),
        commit_run(CommitState::Start, outcomes)[k] == CommitAction::Fail,
    ensures
        ({
            let r = commit_run(CommitState::Start, outcomes);
            ||| k >= 1 && r[k - 1] == CommitAction::Run(GitStep::SyncRealIndex) && !outcomes[k]
            ||| k >= 2 && r[k - 1] == CommitAction::RemoveTempIndex && !outcomes[k - 1] && (r[k
                - 2] == CommitAction::Run(GitStep::SeedTempIndex) || r[k - 2] == CommitAction::Run(
                GitStep::StagePaths,
            ) || r[k - 2] == CommitAction::Run(GitStep::CommitTempIndex))
        }),
{
    reveal_with_fuel(commit_run, 8);
}

} // verus!

verus! {

/// The pathspecs that match `paths` literally.
pub open spec fn literal_pathspecs(paths: Seq<Seq<u8>>) -> Seq<Seq<u8>> {
    paths.map_values(|p: Seq<u8>| literal_prefix() + p)
}

/// The arguments of `git` for a step of committing `paths` with `message`.
pub open spec fn step_arguments(step: GitStep, paths: Seq<Seq<u8>>, message: Seq<char>) -> Seq<
    Seq<u8>,
> {
    match step {
        GitStep::ProbeHead => seq![
            encode_utf8("rev-parse"@),
            encode_utf8("--verify"@),
            encode_utf8("-q"@),
            encode_utf8("HEAD"@),
        ],
        GitStep::SeedTempIndex => seq![encode_utf8("read-tree"@), encode_utf8("HEAD"@)],
        GitStep::StagePaths => seq![
            encode_utf8("add"@),
            encode_utf8("--all"@),
            encode_utf8("--"@),
        ] + literal_pathspecs(paths),
        GitStep::CommitTempIndex => seq![
            encode_utf8("commit"@),
            encode_utf8("-m"@),
            encode_utf8(message),
        ],
        GitStep::SyncRealIndex => seq![
            encode_utf8("reset"@),
            encode_utf8("-q"@),
            encode_utf8("--"@),
        ] + literal_pathspecs(paths),
    }
}

/// Whether a step works on the temporary index rather than the real one.
pub open spec fn uses_temp_index(step: GitStep) -> bool {
    ||| step is SeedTempIndex
    ||| step is StagePaths
    ||| step is CommitTempIndex
}

/// The UTF-8 bytes of `s`.
fn word(s: &str) -> (r: Vec<u8>)
    ensures
        r@ == encode_utf8(s@),
{
    text_bytes(&String::from_str(s))
}

/// `head` followed by the literal pathspecs of `paths`.
fn with_pathspecs(head: Vec<Vec<u8>>, paths: &Vec<Vec<u8>>) -> (r: Vec<Vec<u8>>)
    ensures
        byte_strings(r@) == byte_strings(head@) + literal_pathspecs(byte_strings(paths@)),
{
    let mut r = head;
    let ghost start = byte_strings(r@);
    let ghost ps = literal_pathspecs(byte_strings(paths@));
    let mut i: usize = 0;
    while i < paths.len()
        invariant
            ps == literal_pathspecs(byte_strings(paths@)),
            i <= paths@.len(),
            byte_strings(r@) == start + ps.take(i as int),
        decreases paths@.len() - i,
    {
        let ghost before = byte_strings(r@);
        let p = literal_pathspec(paths[i].as_slice());
        r.push(p);
        assert(ps[i as int] == p@);
        assert(byte_strings(r@) =~= before.push(p@));
        assert(ps.take(i + 1) =~= ps.take(i as int).push(p@));
        i = i + 1;
    }
    assert(ps.take(paths@.len() as int) =~= ps);
    r
}

impl GitStep {
    /// The arguments of `git` for this step when committing `paths` with
    /// `message`; the paths are matched literally.
    pub fn arguments(&self, paths: &Vec<Vec<u8>>, message: &str) -> (r: Vec<Vec<u8>>)
        ensures
            byte_strings(r@) == step_arguments(*self, byte_strings(paths@), message@),
    {
        let mut r: Vec<Vec<u8>> = Vec::new();
        match self {
            GitStep::ProbeHead => {
                r.push(word("rev-parse"));
                r.push(word("--verify"));
                r.push(word("-q"));
                r.push(word("HEAD"));
            },
            GitStep::SeedTempIndex => {
                r.push(word("read-tree"));
                r.push(word("HEAD"));
            },
            GitStep::StagePaths => {
                r.push(word("add"));
                r.push(word("--all"));
                r.push(word("--"));
                r = with_pathspecs(r, paths);
            },
            GitStep::CommitTempIndex => {
                r.push(word("commit"));
                r.push(word("-m"));
                r.push(word(message));
            },
            GitStep::SyncRealIndex => {
                r.push(word("reset"));
                r.push(word("-q"));
                r.push(word("--"));
                r = with_pathspecs(r, paths);
            },
        }
        assert(byte_strings(r@) =~= step_arguments(*self, byte_strings(paths@), message@));
        r
    }

    /// Whether this step works on the temporary index, which git is pointed
    /// to through `GIT_INDEX_FILE`; the others use the real index.
    pub fn on_temp_index(&self) -> (r: bool)
        ensures
            r == uses_temp_index(*self),
    {
        match self {
            GitStep::SeedTempIndex | GitStep::StagePaths | GitStep::CommitTempIndex => true,
            GitStep::ProbeHead | GitStep::SyncRealIndex => false,
        }
    }
}

/// The file name of the temporary index of the `serial`-th commit made by
/// process `pid`: `index.git-chai.<pid>.<serial>`.
pub open spec fn temp_index_name(pid: nat, serial: nat) -> Seq<u8> {
    encode_utf8("index.git-chai."@ + decimal(pid) + "."@ + decimal(serial))
}

/// Where the temporary index of the `serial`-th commit of process `pid`
/// lives: in the git directory, so that it stays out of the working tree.
pub fn temp_index_path(git_dir: &[u8], pid: u32, serial: usize) -> (r: Vec<u8>)
    ensures
        r@ == join_path(git_dir@, temp_index_name(pid as nat, serial as nat)),
{
    let mut name = String::from_str("index.git-chai.");
    let p = decimal_text(pid as usize);
    name.append(p.as_str());
    name.append(".");
    let n = decimal_text(serial);
    name.append(n.as_str());
    let bytes = text_bytes(&name);
    join_paths(git_dir, bytes.as_slice())
}

} // verus!
