//! Commit messages, the commits a set of groups asks for, and what a run
//! amounts to.
use vstd::prelude::*;
use vstd::utf8::{decode_utf8, valid_utf8};

use crate::grouping::{file_views, group_files, ChangeGroup, FileChange, FileChangeView, GroupView};
use crate::components::{file_name, file_name_bytes};
use crate::paths::copy_bytes;
use crate::status::{byte_strings, opt_bytes};
use crate::text::{decimal, decimal_text, lossy_text, utf8_lossy, utf8_text};
use crate::types::{change_word, ChangeType};

verus! {

/// The name a directory commit uses for `dir`: its file name (its last
/// component, as `Path::file_name` gives it) when that is valid UTF-8,
/// otherwise the whole path shown lossily.
pub open spec fn directory_display_name(dir: Seq<u8>) -> Seq<char> {
    match file_name(dir) {
        Some(name) => if valid_utf8(name) {
            decode_utf8(name)
        } else {
            utf8_lossy(dir)
        },
        None => utf8_lossy(dir),
    }
}

/// The message of a directory commit: `mod: src`.
pub open spec fn directory_message(dir: Seq<u8>, change_type: ChangeType) -> Seq<char> {
    change_word(change_type) + ": "@ + directory_display_name(dir)
}

/// The message of a single-file commit: `mod: src/main.rs`, or
/// `rename: src/a.rs -> src/b.rs` (and `copy: ...`) when a rename or copy
/// knows its source. Paths are shown lossily.
pub open spec fn file_message(f: FileChangeView) -> Seq<char> {
    match f.old_filename {
        Some(old) => if f.change_type == ChangeType::Rename {
            "rename: "@ + utf8_lossy(old) + " -> "@ + utf8_lossy(f.filename)
        } else if f.change_type == ChangeType::Copy {
            "copy: "@ + utf8_lossy(old) + " -> "@ + utf8_lossy(f.filename)
        } else {
            change_word(f.change_type) + ": "@ + utf8_lossy(f.filename)
        },
        None => change_word(f.change_type) + ": "@ + utf8_lossy(f.filename),
    }
}

/// Commit message for a whole directory: "mod: src".
pub fn directory_commit_message(dir: &[u8], change_type: ChangeType) -> (m: String)
    ensures
        m@ == directory_message(dir@, change_type),
{
    let name = match file_name_bytes(dir) {
        Some(n) => match utf8_text(n.as_slice()) {
            Some(s) => s,
            None => lossy_text(dir),
        },
        None => lossy_text(dir),
    };
    let mut m = change_type.to_string();
    m.append(": ");
    m.append(name.as_str());
    m
}

/// Commit message for a single file: "mod: src/main.rs", or
/// "rename: src/a.rs -> src/b.rs" for renames and copies.
pub fn file_commit_message(file: &FileChange) -> (m: String)
    ensures
        m@ == file_message(file@),
{
    match &file.old_filename {
        Some(old) => {
            if file.change_type == ChangeType::Rename || file.change_type == ChangeType::Copy {
                let mut m = if file.change_type == ChangeType::Rename {
                    String::from_str("rename: ")
                } else {
                    String::from_str("copy: ")
                };
                let o = lossy_text(old.as_slice());
                m.append(o.as_str());
                m.append(" -> ");
                let n = lossy_text(file.filename.as_slice());
                m.append(n.as_str());
                m
            } else {
                plain_file_message(file)
            }
        },
        None => plain_file_message(file),
    }
}

/// `<change>: <path>`.
fn plain_file_message(file: &FileChange) -> (m: String)
    ensures
        m@ == change_word(file.change_type) + ": "@ + utf8_lossy(file.filename@),
{
    let mut m = file.change_type.to_string();
    m.append(": ");
    let n = lossy_text(file.filename.as_slice());
    m.append(n.as_str());
    m
}

} // verus!

verus! {

/// One commit to make: its message, the paths it stages (exactly these and
/// nothing else), and what to report about it.
pub struct PlannedCommit {
    pub message: String,
    pub paths: Vec<Vec<u8>>,
    /// The directory of a directory commit, the file of a single-file commit.
    pub subject: Vec<u8>,
    pub change_type: ChangeType,
    pub whole_directory: bool,
}

/// The value of a planned commit.
pub struct PlanView {
    pub message: Seq<char>,
    pub paths: Seq<Seq<u8>>,
    pub subject: Seq<u8>,
    pub change_type: ChangeType,
    pub whole_directory: bool,
}

impl View for PlannedCommit {
    type V = PlanView;

    open spec fn view(&self) -> PlanView {
        PlanView {
            message: self.message@,
            paths: byte_strings(self.paths@),
            subject: self.subject@,
            change_type: self.change_type,
            whole_directory: self.whole_directory,
        }
    }
}

/// The values of a list of planned commits.
pub open spec fn plan_views(v: Seq<PlannedCommit>) -> Seq<PlanView> {
    v.map_values(|x: PlannedCommit| x@)
}

/// The paths a single-file commit stages: the source of a rename or copy,
/// then the file itself.
pub open spec fn staged_paths(f: FileChangeView) -> Seq<Seq<u8>> {
    match f.old_filename {
        Some(old) => seq![old, f.filename],
        None => seq![f.filename],
    }
}

/// The commit of one file of an individual group.
pub open spec fn file_commit(f: FileChangeView) -> PlanView {
    PlanView {
        message: file_message(f),
        paths: staged_paths(f),
        subject: f.filename,
        change_type: f.change_type,
        whole_directory: false,
    }
}

/// The names of a list of files, in order.
pub open spec fn file_paths(files: Seq<FileChangeView>) -> Seq<Seq<u8>> {
    files.map_values(|f: FileChangeView| f.filename)
}

/// The commits a group asks for: one for a directory group, staging its
/// files as they were reported (files created since stay out); one per file
/// of an individual group.
pub open spec fn group_commits(g: GroupView) -> Seq<PlanView> {
    match g {
        GroupView::Directory { path, change_type, files } => seq![
            PlanView {
                message: directory_message(path, change_type),
                paths: file_paths(files),
                subject: path,
                change_type,
                whole_directory: true,
            },
        ],
        GroupView::Individual { files } => files.map_values(|f: FileChangeView| file_commit(f)),
    }
}

/// The commits of a list of groups, in order.
pub open spec fn planned_commits(gs: Seq<GroupView>) -> Seq<PlanView>
    decreases gs.len(),
{
    if gs.len() == 0 {
        Seq::empty()
    } else {
        planned_commits(gs.drop_last()) + group_commits(gs.last())
    }
}

/// The paths a single-file commit stages.
fn file_staged_paths(f: &FileChange) -> (r: Vec<Vec<u8>>)
    ensures
        byte_strings(r@) == staged_paths(f@),
{
    let mut r: Vec<Vec<u8>> = Vec::new();
    match &f.old_filename {
        Some(o) => r.push(copy_bytes(o.as_slice())),
        None => {},
    }
    r.push(copy_bytes(f.filename.as_slice()));
    assert(byte_strings(r@) =~= staged_paths(f@));
    r
}

/// The commits `groups` ask for, in order: one per directory group, one per
/// file of each individual group.
pub fn plan_commits(groups: &Vec<ChangeGroup>) -> (r: Vec<PlannedCommit>)
    ensures
        plan_views(r@) == planned_commits(crate::grouping::group_views(groups@)),
{
    let ghost gs = crate::grouping::group_views(groups@);
    let mut r: Vec<PlannedCommit> = Vec::new();
    let mut i: usize = 0;
    assert(gs.take(0) =~= Seq::<GroupView>::empty());
    while i < groups.len()
        invariant
            gs == crate::grouping::group_views(groups@),
            i <= groups@.len(),
            plan_views(r@) == planned_commits(gs.take(i as int)),
        decreases groups@.len() - i,
    {
        assert(gs.take(i + 1).drop_last() =~= gs.take(i as int));
        assert(gs.take(i + 1).last() == groups@[i as int]@);
        let ghost before = plan_views(r@);
        match &groups[i] {
            ChangeGroup::Directory { path, change_type, files } => {
                let message = directory_commit_message(path.as_slice(), *change_type);
                let mut paths: Vec<Vec<u8>> = Vec::new();
                let mut k: usize = 0;
                while k < files.len()
                    invariant
                        k <= files@.len(),
                        byte_strings(paths@) == file_paths(file_views(files@)).take(k as int),
                    decreases files@.len() - k,
                {
                    assert(file_paths(file_views(files@))[k as int] == files@[k as int].filename@);
                    let ghost pb = paths@;
                    let p = copy_bytes(files[k].filename.as_slice());
                    paths.push(p);
                    assert(byte_strings(paths@) =~= byte_strings(pb).push(p@));
                    assert(byte_strings(paths@) =~= file_paths(file_views(files@)).take(k + 1));
                    k = k + 1;
                }
                assert(file_paths(file_views(files@)).take(files@.len() as int) =~= file_paths(
                    file_views(files@),
                ));
                let c = PlannedCommit {
                    message,
                    paths,
                    subject: copy_bytes(path.as_slice()),
                    change_type: *change_type,
                    whole_directory: true,
                };
                r.push(c);
                assert(plan_views(r@) =~= before + group_commits(groups@[i as int]@));
            },
            ChangeGroup::Individual { files } => {
                let mut k: usize = 0;
                let ghost fs = file_views(files@);
                while k < files.len()
                    invariant
                        fs == file_views(files@),
                        k <= files@.len(),
                        plan_views(r@) == before + fs.take(k as int).map_values(
                            |f: FileChangeView| file_commit(f),
                        ),
                    decreases files@.len() - k,
                {
                    let f = &files[k];
                    let c = PlannedCommit {
                        message: file_commit_message(f),
                        paths: file_staged_paths(f),
                        subject: copy_bytes(f.filename.as_slice()),
                        change_type: f.change_type,
                        whole_directory: false,
                    };
                    assert(fs[k as int] == f@);
                    assert(c@ == file_commit(fs[k as int]));
                    let ghost mid = plan_views(r@);
                    r.push(c);
                    assert(plan_views(r@) =~= mid.push(c@));
                    assert(fs.take(k + 1).map_values(|f: FileChangeView| file_commit(f))
                        =~= fs.take(k as int).map_values(|f: FileChangeView| file_commit(f)).push(
                        file_commit(fs[k as int]),
                    ));
                    assert(plan_views(r@) =~= before + fs.take(k + 1).map_values(
                        |f: FileChangeView| file_commit(f),
                    ));
                    k = k + 1;
                }
                assert(fs.take(files@.len() as int) =~= fs);
            },
        }
        i = i + 1;
    }
    assert(gs.take(groups@.len() as int) =~= gs);
    r
}

} // verus!

verus! {

/// What to do with a planned commit.
#[derive(Debug, Clone, Copy, PartialEq, Eq, Structural)]
pub enum PlanAction {
    /// Only show what would be committed.
    Preview,
    /// Make the commit.
    Commit,
}

/// What to do with each planned commit: a dry run only shows it and never
/// commits; otherwise it is made.
pub fn plan_action(dry_run: bool) -> (a: PlanAction)
    ensures
        dry_run <==> a == PlanAction::Preview,
        !dry_run <==> a == PlanAction::Commit,
{
    if dry_run {
        PlanAction::Preview
    } else {
        PlanAction::Commit
    }
}

/// What a run of the committer amounts to, once its commits were tried.
#[derive(Debug)]
pub enum RunOutcome {
    /// A dry run: nothing was committed; `planned` commits would have been,
    /// and `push` tells whether a push would have followed.
    DryRun { planned: usize, push: bool },
    /// Some commits failed: the run fails with this message.
    Failed { message: String },
    /// Every commit was tried and none was made.
    NothingCommitted,
    /// `count` commits were made; `push` tells whether to push them.
    Committed { count: usize, push: bool },
}

/// How many entries of `s` are `v`.
pub open spec fn count_of(s: Seq<bool>, v: bool) -> nat
    decreases s.len(),
{
    if s.len() == 0 {
        0
    } else {
        count_of(s.drop_last(), v) + if s.last() == v {
            1nat
        } else {
            0nat
        }
    }
}

/// The message of a run in which `failed` of `planned` commits failed.
pub open spec fn failure_message(failed: nat, planned: nat) -> Seq<char> {
    decimal(failed) + " of "@ + decimal(planned) + " change(s) failed to commit"@
}

proof fn lemma_count_bound(s: Seq<bool>, v: bool)
    ensures
        count_of(s, v) <= s.len(),
    decreases s.len(),
{
    if s.len() > 0 {
        lemma_count_bound(s.drop_last(), v);
    }
}

/// What a run amounts to: a dry run commits nothing; otherwise any failed
/// commit (a `false` among `results`, one per commit tried) fails the run,
/// naming how many of the `planned` commits failed; else the run made the
/// commits that succeeded, and pushes them when asked and there are any.
pub fn run_outcome(dry_run: bool, push: bool, planned: usize, results: &Vec<bool>) -> (r: RunOutcome)
    requires
        !dry_run ==> results@.len() == planned,
    ensures
        dry_run ==> r == (RunOutcome::DryRun { planned, push }),
        !dry_run && count_of(results@, false) > 0 ==> (r matches RunOutcome::Failed { message }
            && message@ == failure_message(count_of(results@, false), planned as nat)),
        !dry_run && count_of(results@, false) == 0 && count_of(results@, true) == 0 ==> r
            == RunOutcome::NothingCommitted,
        !dry_run && count_of(results@, false) == 0 && count_of(results@, true) > 0 ==> r == (
        RunOutcome::Committed { count: count_of(results@, true) as usize, push }),
{
    if dry_run {
        return RunOutcome::DryRun { planned, push };
    }
    let mut committed: usize = 0;
    let mut failed: usize = 0;
    let mut i: usize = 0;
    assert(results@.take(0) =~= Seq::<bool>::empty());
    while i < results.len()
        invariant
            i <= results@.len(),
            committed == count_of(results@.take(i as int), true),
            failed == count_of(results@.take(i as int), false),
        decreases results@.len() - i,
    {
        assert(results@.take(i + 1).drop_last() =~= results@.take(i as int));
        proof {
            lemma_count_bound(results@.take(i as int), true);
            lemma_count_bound(results@.take(i as int), false);
        }
        if results[i] {
            committed = committed + 1;
        } else {
            failed = failed + 1;
        }
        i = i + 1;
    }
    assert(results@.take(results@.len() as int) =~= results@);
    if failed > 0 {
        let mut message = decimal_text(failed);
        message.append(" of ");
        let p = decimal_text(planned);
        message.append(p.as_str());
        message.append(" change(s) failed to commit");
        return RunOutcome::Failed { message };
    }
    if committed == 0 {
        return RunOutcome::NothingCommitted;
    }
    RunOutcome::Committed { count: committed, push }
}

} // verus!

verus! {

/// No changed file is left out of the plan: every file of every group is
/// staged by one of the planned commits.
pub proof fn law_every_grouped_file_is_staged(gs: Seq<GroupView>, k: int, i: int)
    requires
        0 <= k < gs.len(),
        0 <= i < group_files(gs[k]).len(),
    ensures
        exists|p: int|
            0 <= p < planned_commits(gs).len() && (#[trigger] planned_commits(gs)[p]).paths.contains(
                group_files(gs[k])[i].filename,
            ),
    decreases gs.len(),
{
    let prefix = planned_commits(gs.drop_last());
    let f = group_files(gs[k])[i];
    if k < gs.len() - 1 {
        assert(gs.drop_last()[k] == gs[k]);
        law_every_grouped_file_is_staged(gs.drop_last(), k, i);
        let p = choose|p: int|
            0 <= p < prefix.len() && (#[trigger] prefix[p]).paths.contains(f.filename);
        assert(planned_commits(gs)[p] == prefix[p]);
    } else {
        match gs[k] {
            GroupView::Directory { path, change_type, files } => {
                let p = prefix.len() as int;
                assert(planned_commits(gs)[p] == group_commits(gs[k])[0]);
                assert(file_paths(files)[i] == f.filename);
            },
            GroupView::Individual { files } => {
                let p = prefix.len() + i;
                assert(planned_commits(gs)[p] == group_commits(gs[k])[i]);
                assert(group_commits(gs[k])[i] == file_commit(files[i]));
                assert(staged_paths(f).contains(f.filename)) by {
                    match f.old_filename {
                        Some(o) => assert(staged_paths(f)[1] == f.filename),
                        None => assert(staged_paths(f)[0] == f.filename),
                    }
                }
            },
        }
    }
}

} // verus!


verus! {

/// A single-file commit names the whole path of its file, whatever the
/// change: the change word, `: `, and the whole path shown lossily, unless it is a rename or copy that knows its source,
/// which names the source, ` -> ` and the path.
pub proof fn law_file_messages_name_the_whole_path(f: FileChangeView)
    ensures
        (f.old_filename is None || (f.change_type != ChangeType::Rename && f.change_type
            != ChangeType::Copy)) ==> file_message(f) == change_word(f.change_type) + ": "@
            + utf8_lossy(f.filename),
        f.old_filename is Some && f.change_type == ChangeType::Rename ==> file_message(f)
            == "rename: "@ + utf8_lossy(f.old_filename->0) + " -> "@ + utf8_lossy(f.filename),
        f.old_filename is Some && f.change_type == ChangeType::Copy ==> file_message(f)
            == "copy: "@ + utf8_lossy(f.old_filename->0) + " -> "@ + utf8_lossy(f.filename),
{
}

} // verus!
