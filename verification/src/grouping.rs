//! Grouping changes into directory commits and per-file commits.
use vstd::prelude::*;

use crate::components::{
    as_path, as_path_bytes, bucket_dir, bucket_dir_bytes, components, components_lt, dir_key,
    dir_key_bytes, dot_key, keys_of, law_keys_identify_paths, lemma_dot_key, path_keys, law_keys_order_paths, path_key,
    path_key_bytes,
};
use crate::paths::{
    bytes_eq, copy_bytes, ends_with_slash, lemma_path_lt_asymmetric, lemma_path_lt_irreflexive,
    lemma_path_lt_total, lemma_path_lt_transitive, path_le, path_lt, path_lt_bytes,
};
use crate::status::{byte_strings, change_views, contains_bytes, opt_bytes, GitChange, GitChangeView};
use crate::text::utf8_text;
use crate::types::{ChangeType, StatusCode};

verus! {

/// A changed file, ready to be staged and described in a commit message.
#[derive(Debug, Clone)]
pub struct FileChange {
    pub filename: Vec<u8>,
    pub old_filename: Option<Vec<u8>>,
    pub change_type: ChangeType,
}

/// The value of a file change.
pub struct FileChangeView {
    pub filename: Seq<u8>,
    pub old_filename: Option<Seq<u8>>,
    pub change_type: ChangeType,
}

impl View for FileChange {
    type V = FileChangeView;

    open spec fn view(&self) -> FileChangeView {
        FileChangeView {
            filename: self.filename@,
            old_filename: opt_bytes(self.old_filename),
            change_type: self.change_type,
        }
    }
}

impl From<GitChange> for FileChange {
    fn from(change: GitChange) -> (f: Self) {
        FileChange {
            filename: change.filename,
            old_filename: change.old_filename,
            change_type: change.change_type,
        }
    }
}

impl vstd::std_specs::convert::FromSpecImpl<GitChange> for FileChange {
    open spec fn obeys_from_spec() -> bool {
        true
    }

    open spec fn from_spec(v: GitChange) -> Self {
        FileChange {
            filename: v.filename,
            old_filename: v.old_filename,
            change_type: v.change_type,
        }
    }
}

/// The values of a list of file changes.
pub open spec fn file_views(v: Seq<FileChange>) -> Seq<FileChangeView> {
    v.map_values(|x: FileChange| x@)
}

/// The file change a change stands for.
pub open spec fn change_file(c: GitChangeView) -> FileChangeView {
    FileChangeView {
        filename: c.filename,
        old_filename: c.old_filename,
        change_type: c.change_type,
    }
}

/// One unit of work: either a whole directory committed under a single
/// message, or a set of individually committed files.
#[derive(Debug, Clone)]
pub enum ChangeGroup {
    Directory { path: Vec<u8>, change_type: ChangeType, files: Vec<FileChange> },
    Individual { files: Vec<FileChange> },
}

/// The value of a change group.
pub enum GroupView {
    Directory { path: Seq<u8>, change_type: ChangeType, files: Seq<FileChangeView> },
    Individual { files: Seq<FileChangeView> },
}

impl View for ChangeGroup {
    type V = GroupView;

    open spec fn view(&self) -> GroupView {
        match self {
            ChangeGroup::Directory { path, change_type, files } => GroupView::Directory {
                path: path@,
                change_type: *change_type,
                files: file_views(files@),
            },
            ChangeGroup::Individual { files } => GroupView::Individual {
                files: file_views(files@),
            },
        }
    }
}

/// The values of a list of groups.
pub open spec fn group_views(v: Seq<ChangeGroup>) -> Seq<GroupView> {
    v.map_values(|x: ChangeGroup| x@)
}

/// The files of a group.
pub open spec fn group_files(g: GroupView) -> Seq<FileChangeView> {
    match g {
        GroupView::Directory { files, .. } => files,
        GroupView::Individual { files } => files,
    }
}

/// The path a group sorts by: the directory of a directory group, the
/// first file's path of an individual group (empty when it has no file).
pub open spec fn raw_key(g: GroupView) -> Seq<u8> {
    match g {
        GroupView::Directory { path, .. } => path,
        GroupView::Individual { files } => if files.len() > 0 {
            files[0].filename
        } else {
            Seq::empty()
        },
    }
}

/// The order key of a group: the key of the path it sorts by, so that
/// groups compare as their paths do as `Path`s.
pub open spec fn group_key(g: GroupView) -> Seq<u8> {
    path_key(raw_key(g))
}

/// Every file git lists under a directory, tracked and untracked but not
/// ignored, as `git ls-files` reports it.
pub struct DirectoryListing {
    pub dir: Vec<u8>,
    pub files: Vec<Vec<u8>>,
}

/// The value of a directory listing.
pub struct ListingView {
    pub dir: Seq<u8>,
    pub files: Seq<Seq<u8>>,
}

impl View for DirectoryListing {
    type V = ListingView;

    open spec fn view(&self) -> ListingView {
        ListingView { dir: self.dir@, files: byte_strings(self.files@) }
    }
}

/// The values of a list of directory listings.
pub open spec fn listing_views(v: Seq<DirectoryListing>) -> Seq<ListingView> {
    v.map_values(|x: DirectoryListing| x@)
}

/// The keys of the files listed for the directory with key `d`: those of
/// the first listing of a directory with that key, none when there is no
/// such listing.
pub open spec fn listed_files(ls: Seq<ListingView>, d: Seq<u8>) -> Set<Seq<u8>>
    decreases ls.len(),
{
    if ls.len() == 0 {
        Set::empty()
    } else if path_key(ls[0].dir) == d {
        path_keys(ls[0].files).to_set()
    } else {
        listed_files(ls.drop_first(), d)
    }
}

/// `git status` reports a whole untracked directory as one `?? dir/`
/// record; such a record is taken as a directory when its path is valid
/// UTF-8.
pub open spec fn is_untracked_dir(c: GitChangeView) -> bool {
    c.change_type == ChangeType::Add && c.status.worktree == StatusCode::Untracked
        && vstd::utf8::valid_utf8(c.filename) && ends_with_slash(c.filename)
}

/// The group of an untracked directory record: the directory, without its
/// trailing separator, added as one.
pub open spec fn untracked_group(c: GitChangeView) -> GroupView {
    GroupView::Directory {
        path: as_path(c.filename),
        change_type: c.change_type,
        files: seq![change_file(c)],
    }
}

/// The groups of the untracked directory records among `cs`, in order.
pub open spec fn untracked_groups(cs: Seq<GitChangeView>) -> Seq<GroupView>
    decreases cs.len(),
{
    if cs.len() == 0 {
        Seq::empty()
    } else {
        let r = untracked_groups(cs.drop_last());
        if is_untracked_dir(cs.last()) {
            r.push(untracked_group(cs.last()))
        } else {
            r
        }
    }
}

/// A change that is not an untracked directory belongs with the other
/// changes of the directory it lies in; directories are told apart by key.
pub open spec fn in_bucket(c: GitChangeView, d: Seq<u8>) -> bool {
    !is_untracked_dir(c) && dir_key(c.filename) == d
}

/// The files of the changes that lie in `d`, in order.
pub open spec fn bucket_files(cs: Seq<GitChangeView>, d: Seq<u8>) -> Seq<FileChangeView>
    decreases cs.len(),
{
    if cs.len() == 0 {
        Seq::empty()
    } else {
        let r = bucket_files(cs.drop_last(), d);
        if in_bucket(cs.last(), d) {
            r.push(change_file(cs.last()))
        } else {
            r
        }
    }
}

/// Some change lies in `d`.
pub open spec fn has_bucket(cs: Seq<GitChangeView>, d: Seq<u8>) -> bool {
    exists|i: int| 0 <= i < cs.len() && in_bucket(#[trigger] cs[i], d)
}

/// The keys are in strictly increasing order.
pub open spec fn strictly_sorted(ds: Seq<Seq<u8>>) -> bool {
    forall|i: int, j: int| 0 <= i < j < ds.len() ==> path_lt(#[trigger] ds[i], #[trigger] ds[j])
}

/// The keys of the directories that changes lie in, in key order (the
/// order of their `Path`s), each once.
pub open spec fn bucket_dirs(cs: Seq<GitChangeView>) -> Seq<Seq<u8>> {
    choose|ds: Seq<Seq<u8>>|
        strictly_sorted(ds) && forall|d: Seq<u8>| #[trigger] ds.contains(d) <==> has_bucket(cs, d)
}

/// The keys of the names of a list of files.
pub open spec fn file_names(files: Seq<FileChangeView>) -> Set<Seq<u8>> {
    Set::new(
        |p: Seq<u8>| exists|i: int| 0 <= i < files.len() && path_key((#[trigger] files[i]).filename) == p,
    )
}

/// All files of the list share the change type of the first.
pub open spec fn uniform(files: Seq<FileChangeView>) -> bool {
    forall|i: int| 0 <= i < files.len() ==> (#[trigger] files[i]).change_type == files[0].change_type
}

/// The files of `d` may form a directory commit, subject to the listing of
/// `d`: `d` is not the top of the working tree (a commit named after the
/// whole repository says nothing), and the files share one change type
/// that is neither a rename nor a copy.
pub open spec fn directory_candidate(d: Seq<u8>, files: Seq<FileChangeView>) -> bool {
    &&& d != dot_key()
    &&& files.len() > 0
    &&& uniform(files)
    &&& files[0].change_type != ChangeType::Rename
    &&& files[0].change_type != ChangeType::Copy
}

/// The files of `d` form a directory commit: a candidate whose changed
/// names are exactly every file listed in `d`.
pub open spec fn whole_directory(d: Seq<u8>, files: Seq<FileChangeView>, ls: Seq<ListingView>) -> bool {
    directory_candidate(d, files) && file_names(files) == listed_files(ls, d)
}

/// The path naming the directory with key `d`: the directory of its first
/// changed file.
pub open spec fn bucket_rep(cs: Seq<GitChangeView>, d: Seq<u8>) -> Seq<u8> {
    bucket_dir(bucket_files(cs, d)[0].filename)
}

/// The group of the changes in the directory with key `d`.
pub open spec fn bucket_group(cs: Seq<GitChangeView>, d: Seq<u8>, ls: Seq<ListingView>) -> GroupView {
    let fs = bucket_files(cs, d);
    if whole_directory(d, fs, ls) {
        GroupView::Directory { path: bucket_rep(cs, d), change_type: fs[0].change_type, files: fs }
    } else {
        GroupView::Individual { files: fs }
    }
}

/// The groups before ordering: the untracked directories in the order of
/// the changes, then one group per directory in path order.
pub open spec fn unsorted_groups(cs: Seq<GitChangeView>, ls: Seq<ListingView>) -> Seq<GroupView> {
    untracked_groups(cs) + bucket_groups(cs, bucket_dirs(cs), ls)
}

/// The groups of the changes in each of the directories `ds`.
pub open spec fn bucket_groups(cs: Seq<GitChangeView>, ds: Seq<Seq<u8>>, ls: Seq<ListingView>) -> Seq<
    GroupView,
> {
    ds.map_values(|d: Seq<u8>| bucket_group(cs, d, ls))
}

/// Group `i` of `pre` comes before group `j` in a stable sort by key.
pub open spec fn sorts_before(pre: Seq<GroupView>, i: int, j: int) -> bool {
    path_lt(group_key(pre[i]), group_key(pre[j])) || (group_key(pre[i]) == group_key(pre[j]) && i
        < j)
}

/// `out` is `pre` reordered by `perm` (out[k] is pre[perm[k]]) into stable
/// key order.
pub open spec fn stable_sort_witness(out: Seq<GroupView>, pre: Seq<GroupView>, perm: Seq<int>) -> bool {
    &&& out.len() == pre.len()
    &&& perm.len() == pre.len()
    &&& forall|k: int| 0 <= k < perm.len() ==> 0 <= #[trigger] perm[k] < pre.len()
    &&& forall|k: int| 0 <= k < perm.len() ==> out[k] == pre[#[trigger] perm[k]]
    &&& forall|k: int, l: int|
        0 <= k < l < perm.len() ==> sorts_before(pre, #[trigger] perm[k], #[trigger] perm[l])
}

/// `out` is `pre` sorted by key, groups with equal keys keeping their order.
pub open spec fn is_stable_sort(out: Seq<GroupView>, pre: Seq<GroupView>) -> bool {
    exists|perm: Seq<int>| stable_sort_witness(out, pre, perm)
}

} // verus!

verus! {

/// A change whose directory has no change has no files there.
proof fn lemma_no_bucket_no_files(cs: Seq<GitChangeView>, d: Seq<u8>)
    requires
        !has_bucket(cs, d),
    ensures
        bucket_files(cs, d) == Seq::<FileChangeView>::empty(),
    decreases cs.len(),
{
    if cs.len() > 0 {
        assert forall|i: int| 0 <= i < cs.drop_last().len() implies !in_bucket(
            #[trigger] cs.drop_last()[i],
            d,
        ) by {
            assert(cs.drop_last()[i] == cs[i]);
        }
        lemma_no_bucket_no_files(cs.drop_last(), d);
        assert(!in_bucket(cs[cs.len() - 1], d));
    }
}

/// Two strictly sorted lists with the same members are the same list.
proof fn lemma_strictly_sorted_unique(a: Seq<Seq<u8>>, b: Seq<Seq<u8>>)
    requires
        strictly_sorted(a),
        strictly_sorted(b),
        forall|d: Seq<u8>| a.contains(d) <==> b.contains(d),
    ensures
        a == b,
    decreases a.len(),
{
    if a.len() == 0 {
        if b.len() > 0 {
            assert(b.contains(b[0]));
        }
        assert(a =~= b);
    } else {
        assert(a.contains(a[0]));
        let k = choose|k: int| 0 <= k < b.len() && b[k] == a[0];
        assert(b.contains(b[0]));
        let m = choose|m: int| 0 <= m < a.len() && a[m] == b[0];
        if k > 0 {
            assert(path_lt(b[0], b[k]));
            if m > 0 {
                assert(path_lt(a[0], a[m]));
                lemma_path_lt_asymmetric(b[0], a[0]);
            } else {
                lemma_path_lt_irreflexive(b[0]);
            }
        }
        assert(a[0] == b[0]);
        let a1 = a.drop_first();
        let b1 = b.drop_first();
        assert forall|d: Seq<u8>| a1.contains(d) <==> b1.contains(d) by {
            if a1.contains(d) {
                let i = choose|i: int| 0 <= i < a1.len() && a1[i] == d;
                assert(a[i + 1] == d);
                assert(path_lt(a[0], a[i + 1]));
                assert(b.contains(d));
                let j = choose|j: int| 0 <= j < b.len() && b[j] == d;
                if j == 0 {
                    lemma_path_lt_irreflexive(d);
                }
                assert(b1[j - 1] == d);
            }
            if b1.contains(d) {
                let i = choose|i: int| 0 <= i < b1.len() && b1[i] == d;
                assert(b[i + 1] == d);
                assert(path_lt(b[0], b[i + 1]));
                assert(a.contains(d));
                let j = choose|j: int| 0 <= j < a.len() && a[j] == d;
                if j == 0 {
                    lemma_path_lt_irreflexive(d);
                }
                assert(a1[j - 1] == d);
            }
        }
        lemma_strictly_sorted_unique(a1, b1);
        assert(a =~= seq![a[0]] + a1);
        assert(b =~= seq![b[0]] + b1);
    }
}

/// The file change of a change.
fn file_of(c: &GitChange) -> (f: FileChange)
    ensures
        f@ == change_file(c@),
{
    let old_filename = match &c.old_filename {
        Some(o) => Some(copy_bytes(o.as_slice())),
        None => None,
    };
    FileChange { filename: copy_bytes(c.filename.as_slice()), old_filename, change_type: c.change_type }
}

/// Whether a change is a whole untracked directory.
fn untracked_dir(c: &GitChange) -> (r: bool)
    ensures
        r == is_untracked_dir(c@),
{
    let shaped = c.change_type == ChangeType::Add && c.status.worktree == StatusCode::Untracked
        && c.filename.len() > 0 && c.filename[c.filename.len() - 1] == 47u8;
    if !shaped {
        return false;
    }
    utf8_text(c.filename.as_slice()).is_some()
}

/// The changes that are not untracked directories, sorted into the
/// directories they lie in: the directories in path order, and the files
/// of each.
fn collect_buckets(changes: &Vec<GitChange>) -> (r: (Vec<Vec<u8>>, Vec<Vec<FileChange>>))
    ensures
        r.0@.len() == r.1@.len(),
        byte_strings(r.0@) == bucket_dirs(change_views(changes@)),
        forall|j: int|
            0 <= j < r.0@.len() ==> file_views(#[trigger] r.1@[j]@) == bucket_files(
                change_views(changes@),
                r.0@[j]@,
            ),
{
    let ghost cs = change_views(changes@);
    let mut dirs: Vec<Vec<u8>> = Vec::new();
    let mut files: Vec<Vec<FileChange>> = Vec::new();
    let mut i: usize = 0;
    while i < changes.len()
        invariant
            cs == change_views(changes@),
            i <= changes@.len(),
            dirs@.len() == files@.len(),
            strictly_sorted(byte_strings(dirs@)),
            forall|d: Seq<u8>|
                #[trigger] byte_strings(dirs@).contains(d) <==> has_bucket(cs.take(i as int), d),
            forall|j: int|
                0 <= j < dirs@.len() ==> file_views(#[trigger] files@[j]@) == bucket_files(
                    cs.take(i as int),
                    dirs@[j]@,
                ),
        decreases changes@.len() - i,
    {
        let ghost prev = cs.take(i as int);
        let ghost next = cs.take(i + 1);
        assert(next.drop_last() =~= prev);
        assert(next.last() == changes@[i as int]@);
        let ghost c = changes@[i as int]@;
        let ghost old_dirs = byte_strings(dirs@);
        let ghost old_files = files@;
        assert forall|d: Seq<u8>| has_bucket(next, d) <==> has_bucket(prev, d) || in_bucket(c, d) by {
            if has_bucket(next, d) {
                let k = choose|k: int| 0 <= k < next.len() && in_bucket(next[k], d);
                if k < prev.len() {
                    assert(prev[k] == next[k]);
                }
            }
            if has_bucket(prev, d) {
                let k = choose|k: int| 0 <= k < prev.len() && in_bucket(prev[k], d);
                assert(next[k] == prev[k]);
            }
            if in_bucket(c, d) {
                assert(next[i as int] == c);
            }
        }
        if untracked_dir(&changes[i]) {
            assert forall|j: int| 0 <= j < dirs@.len() implies file_views(#[trigger] files@[j]@)
                == bucket_files(next, dirs@[j]@) by {}
            assert forall|d: Seq<u8>| #[trigger] byte_strings(dirs@).contains(d) <==> has_bucket(next, d) by {
                assert(!in_bucket(c, d));
            }
        } else {
            let fc = file_of(&changes[i]);
            let d = dir_key_bytes(changes[i].filename.as_slice());
            let mut p: usize = 0;
            while p < dirs.len() && path_lt_bytes(dirs[p].as_slice(), d.as_slice())
                invariant
                    p <= dirs@.len(),
                    forall|q: int| 0 <= q < p ==> path_lt(#[trigger] dirs@[q]@, d@),
                decreases dirs@.len() - p,
            {
                p = p + 1;
            }
            if p < dirs.len() && bytes_eq(dirs[p].as_slice(), d.as_slice()) {
                let mut tmp: Vec<FileChange> = Vec::new();
                files.set_and_swap(p, &mut tmp);
                tmp.push(fc);
                files.set_and_swap(p, &mut tmp);
                assert forall|e: Seq<u8>| #[trigger] byte_strings(dirs@).contains(e) <==> has_bucket(next, e) by {
                    if in_bucket(c, e) {
                        assert(old_dirs[p as int] == e);
                    }
                }
                assert forall|j: int| 0 <= j < dirs@.len() implies file_views(
                    #[trigger] files@[j]@,
                ) == bucket_files(next, dirs@[j]@) by {
                    if j == p {
                        assert(file_views(files@[j]@) =~= file_views(old_files[j]@).push(
                            change_file(c),
                        ));
                    } else {
                        assert(old_dirs[j] != old_dirs[p as int]) by {
                            if j < p {
                                assert(path_lt(old_dirs[j], old_dirs[p as int]));
                            } else {
                                assert(path_lt(old_dirs[p as int], old_dirs[j]));
                            }
                            lemma_path_lt_irreflexive(old_dirs[j]);
                        }
                        assert(files@[j] == old_files[j]);
                    }
                }
            } else {
                proof {
                    if p < dirs@.len() {
                        lemma_path_lt_total(old_dirs[p as int], d@);
                    }
                    assert forall|q: int| 0 <= q < old_dirs.len() implies old_dirs[q] != d@ by {
                        if q < p {
                            assert(path_lt(old_dirs[q], d@));
                        } else {
                            if q > p {
                                assert(path_lt(old_dirs[p as int], old_dirs[q]));
                                lemma_path_lt_transitive(d@, old_dirs[p as int], old_dirs[q]);
                            }
                            assert(path_lt(d@, old_dirs[q]));
                        }
                        lemma_path_lt_irreflexive(d@);
                    }
                    assert(!old_dirs.contains(d@));
                    lemma_no_bucket_no_files(prev, d@);
                }
                let ghost dv = d@;
                dirs.insert(p, d);
                let mut one: Vec<FileChange> = Vec::new();
                one.push(fc);
                files.insert(p, one);
                let ghost new_dirs = byte_strings(dirs@);
                assert(new_dirs =~= old_dirs.insert(p as int, dv));
                assert forall|a: int, b: int| 0 <= a < b < new_dirs.len() implies path_lt(
                    #[trigger] new_dirs[a],
                    #[trigger] new_dirs[b],
                ) by {
                    if b == p {
                        assert(path_lt(old_dirs[a], dv));
                    } else if a == p {
                        if b - 1 > p {
                            assert(path_lt(old_dirs[p as int], old_dirs[b - 1]));
                            lemma_path_lt_transitive(dv, old_dirs[p as int], old_dirs[b - 1]);
                        }
                    } else if a < p && b > p {
                        assert(path_lt(old_dirs[a], old_dirs[b - 1]));
                    } else if a > p {
                        assert(path_lt(old_dirs[a - 1], old_dirs[b - 1]));
                    }
                }
                assert forall|e: Seq<u8>| #[trigger] new_dirs.contains(e) <==> has_bucket(next, e) by {
                    if new_dirs.contains(e) {
                        let k = choose|k: int| 0 <= k < new_dirs.len() && new_dirs[k] == e;
                        if k < p {
                            assert(old_dirs.contains(old_dirs[k]));
                        } else if k > p {
                            assert(old_dirs.contains(old_dirs[k - 1]));
                        }
                    }
                    if old_dirs.contains(e) {
                        let k = choose|k: int| 0 <= k < old_dirs.len() && old_dirs[k] == e;
                        if k < p {
                            assert(new_dirs[k] == e);
                        } else {
                            assert(new_dirs[k + 1] == e);
                        }
                    }
                    if in_bucket(c, e) {
                        assert(new_dirs[p as int] == e);
                    }
                }
                assert forall|j: int| 0 <= j < dirs@.len() implies file_views(
                    #[trigger] files@[j]@,
                ) == bucket_files(next, dirs@[j]@) by {
                    if j == p {
                        assert(file_views(files@[j]@) =~= seq![change_file(c)]);
                    } else if j < p {
                        assert(files@[j] == old_files[j]);
                        assert(path_lt(old_dirs[j], dv));
                        lemma_path_lt_irreflexive(dv);
                    } else {
                        assert(files@[j] == old_files[j - 1]);
                        assert(dirs@[j]@ == old_dirs[j - 1]);
                        assert(old_dirs[j - 1] != dv);
                    }
                }
            }
        }
        i = i + 1;
    }
    proof {
        assert(cs.take(changes@.len() as int) =~= cs);
        let ds = byte_strings(dirs@);
        assert(strictly_sorted(ds) && forall|d: Seq<u8>| #[trigger] ds.contains(d) <==> has_bucket(cs, d));
        let chosen = bucket_dirs(cs);
        assert(strictly_sorted(chosen) && forall|d: Seq<u8>| #[trigger] chosen.contains(d) <==> has_bucket(cs, d));
        lemma_strictly_sorted_unique(ds, chosen);
    }
    (dirs, files)
}

} // verus!

verus! {

/// The index of the first listing of `d`, if any.
fn find_listing(listings: &Vec<DirectoryListing>, d: &[u8]) -> (r: Option<usize>)
    ensures
        match r {
            Some(k) => k < listings@.len() && listed_files(listing_views(listings@), d@)
                == path_keys(byte_strings(listings@[k as int].files@)).to_set(),
            None => listed_files(listing_views(listings@), d@) == Set::<Seq<u8>>::empty(),
        },
{
    let ghost ls = listing_views(listings@);
    let mut k: usize = 0;
    assert(ls.skip(0) =~= ls);
    while k < listings.len()
        invariant
            ls == listing_views(listings@),
            k <= listings@.len(),
            listed_files(ls, d@) == listed_files(ls.skip(k as int), d@),
        decreases listings@.len() - k,
    {
        assert(ls.skip(k as int)[0] == listings@[k as int]@);
        let key = path_key_bytes(listings[k].dir.as_slice());
        if bytes_eq(key.as_slice(), d) {
            return Some(k);
        }
        assert(ls.skip(k as int).drop_first() =~= ls.skip(k + 1));
        k = k + 1;
    }
    None
}

/// The keys of the names of `files`, in order.
fn file_keys(files: &Vec<FileChange>) -> (r: Vec<Vec<u8>>)
    ensures
        r@.len() == files@.len(),
        forall|i: int| 0 <= i < r@.len() ==> (#[trigger] r@[i])@ == path_key(files@[i].filename@),
{
    let mut r: Vec<Vec<u8>> = Vec::new();
    let mut i: usize = 0;
    while i < files.len()
        invariant
            i <= files@.len(),
            r@.len() == i,
            forall|j: int| 0 <= j < i ==> (#[trigger] r@[j])@ == path_key(files@[j].filename@),
        decreases files@.len() - i,
    {
        r.push(path_key_bytes(files[i].filename.as_slice()));
        i = i + 1;
    }
    r
}

/// Whether the names of `files` are, as paths, exactly the members of
/// `listed`.
fn same_names(files: &Vec<FileChange>, listed: &Vec<Vec<u8>>) -> (r: bool)
    ensures
        r == (file_names(file_views(files@)) == path_keys(byte_strings(listed@)).to_set()),
{
    let ghost fs = file_views(files@);
    let fk = file_keys(files);
    let lk = keys_of(listed);
    let ghost ls = byte_strings(lk@);
    assert forall|j: int| 0 <= j < fk@.len() implies fk@[j]@ == path_key(#[trigger] fs[j].filename) by {
        assert(fs[j] == files@[j]@);
    }
    let mut i: usize = 0;
    while i < fk.len()
        invariant
            fs == file_views(files@),
            ls == byte_strings(lk@),
            ls == path_keys(byte_strings(listed@)),
            fk@.len() == fs.len(),
            forall|j: int| 0 <= j < fk@.len() ==> fk@[j]@ == path_key(#[trigger] fs[j].filename),
            i <= fk@.len(),
            forall|j: int| 0 <= j < i ==> ls.contains(path_key(#[trigger] fs[j].filename)),
        decreases fk@.len() - i,
    {
        if !contains_bytes(&lk, fk[i].as_slice()) {
            assert(file_names(fs).contains(path_key(fs[i as int].filename)));
            assert(!ls.to_set().contains(path_key(fs[i as int].filename)));
            return false;
        }
        i = i + 1;
    }
    let mut k: usize = 0;
    while k < lk.len()
        invariant
            fs == file_views(files@),
            ls == byte_strings(lk@),
            ls == path_keys(byte_strings(listed@)),
            fk@.len() == fs.len(),
            forall|j: int| 0 <= j < fk@.len() ==> fk@[j]@ == path_key(#[trigger] fs[j].filename),
            k <= lk@.len(),
            forall|j: int| 0 <= j < fs.len() ==> ls.contains(path_key(#[trigger] fs[j].filename)),
            forall|j: int| 0 <= j < k ==> file_names(fs).contains(#[trigger] ls[j]),
        decreases lk@.len() - k,
    {
        let mut found = false;
        let mut j: usize = 0;
        while j < fk.len()
            invariant
                fs == file_views(files@),
                ls == byte_strings(lk@),
                ls == path_keys(byte_strings(listed@)),
            ls == path_keys(byte_strings(listed@)),
                fk@.len() == fs.len(),
                forall|q: int| 0 <= q < fk@.len() ==> fk@[q]@ == path_key(#[trigger] fs[q].filename),
                k < lk@.len(),
                j <= fk@.len(),
                found ==> file_names(fs).contains(ls[k as int]),
                !found ==> forall|q: int| 0 <= q < j ==> path_key((#[trigger] fs[q]).filename) != ls[k as int],
            decreases fk@.len() - j,
        {
            if bytes_eq(fk[j].as_slice(), lk[k].as_slice()) {
                assert(path_key(fs[j as int].filename) == ls[k as int]);
                found = true;
            }
            j = j + 1;
        }
        if !found {
            proof {
                assert(ls.to_set().contains(ls[k as int]));
                if file_names(fs).contains(ls[k as int]) {
                    let q = choose|q: int| 0 <= q < fs.len() && path_key(fs[q].filename) == ls[k as int];
                    assert(path_key(fs[q].filename) != ls[k as int]);
                }
            }
            return false;
        }
        k = k + 1;
    }
    proof {
        assert forall|p: Seq<u8>| file_names(fs).contains(p) <==> ls.to_set().contains(p) by {
            if file_names(fs).contains(p) {
                let q = choose|q: int| 0 <= q < fs.len() && path_key(fs[q].filename) == p;
                assert(ls.contains(path_key(fs[q].filename)));
            }
            if ls.to_set().contains(p) {
                let q = choose|q: int| 0 <= q < ls.len() && ls[q] == p;
                assert(file_names(fs).contains(ls[q]));
            }
        }
        assert(file_names(fs) =~= ls.to_set());
    }
    true
}

/// Whether the files of `d` may form a directory commit before its listing
/// is consulted.
fn is_directory_candidate(d: &[u8], files: &Vec<FileChange>) -> (r: bool)
    ensures
        r == directory_candidate(d@, file_views(files@)),
{
    let ghost fs = file_views(files@);
    proof {
        lemma_dot_key();
    }
    if d.len() == 1 && d[0] == 1u8 {
        assert(d@ =~= dot_key());
        return false;
    }
    assert(d@ != dot_key()) by {
        if d@ == dot_key() {
            assert(d@.len() == 1 && d@[0] == 1u8);
        }
    }
    if files.len() == 0 {
        return false;
    }
    let first = files[0].change_type;
    let mut i: usize = 0;
    while i < files.len()
        invariant
            fs == file_views(files@),
            0 < files@.len(),
            first == fs[0].change_type,
            i <= files@.len(),
            forall|j: int| 0 <= j < i ==> (#[trigger] fs[j]).change_type == first,
        decreases files@.len() - i,
    {
        if files[i].change_type != first {
            assert(fs[i as int].change_type != fs[0].change_type);
            return false;
        }
        i = i + 1;
    }
    first != ChangeType::Rename && first != ChangeType::Copy
}

/// The group of the files of directory `d`.
fn make_bucket_group(d: Vec<u8>, files: Vec<FileChange>, listings: &Vec<DirectoryListing>) -> (g:
    ChangeGroup)
    ensures
        g@ == ({
            let fs = file_views(files@);
            if whole_directory(d@, fs, listing_views(listings@)) {
                GroupView::Directory {
                    path: bucket_dir(fs[0].filename),
                    change_type: fs[0].change_type,
                    files: fs,
                }
            } else {
                GroupView::Individual { files: fs }
            }
        }),
{
    let ghost fs = file_views(files@);
    if is_directory_candidate(d.as_slice(), &files) {
        let whole = match find_listing(listings, d.as_slice()) {
            Some(k) => same_names(&files, &listings[k].files),
            None => {
                proof {
                    assert(fs.len() > 0);
                    assert(file_names(fs).contains(path_key(fs[0].filename)));
                }
                false
            },
        };
        if whole {
            let change_type = files[0].change_type;
            let path = bucket_dir_bytes(files[0].filename.as_slice());
            ChangeGroup::Directory { path, change_type, files }
        } else {
            ChangeGroup::Individual { files }
        }
    } else {
        ChangeGroup::Individual { files }
    }
}

impl ChangeGroup {
    /// A stable sort key: the directory for directory groups, the first
    /// file's path for individual groups.
    pub fn sort_key(&self) -> (k: Vec<u8>)
        ensures
            k@ == raw_key(self@),
    {
        match self {
            ChangeGroup::Directory { path, .. } => copy_bytes(path.as_slice()),
            ChangeGroup::Individual { files } => {
                if files.len() > 0 {
                    copy_bytes(files[0].filename.as_slice())
                } else {
                    Vec::new()
                }
            },
        }
    }
}

/// Whether `key` comes before the key of `g`.
fn key_precedes(key: &[u8], g: &ChangeGroup) -> (r: bool)
    ensures
        r == path_lt(key@, group_key(g@)),
{
    let raw = g.sort_key();
    let k = path_key_bytes(raw.as_slice());
    path_lt_bytes(key, k.as_slice())
}

/// Put `g` into the key-ordered `out`, after every group whose key is not
/// greater.
fn insert_sorted(
    out: &mut Vec<ChangeGroup>,
    g: ChangeGroup,
    Ghost(pre): Ghost<Seq<GroupView>>,
    Ghost(perm): Ghost<Seq<int>>,
) -> (new_perm: Ghost<Seq<int>>)
    requires
        stable_sort_witness(group_views(old(out)@), pre, perm),
    ensures
        stable_sort_witness(group_views(final(out)@), pre.push(g@), new_perm@),
{
    let ghost gv = g@;
    let ghost n = pre.len() as int;
    let ghost old_out = group_views(out@);
    let ghost pre2 = pre.push(gv);
    let raw = g.sort_key();
    let key = path_key_bytes(raw.as_slice());
    let mut q: usize = 0;
    while q < out.len() && !key_precedes(key.as_slice(), &out[q])
        invariant
            q <= out@.len(),
            old_out == group_views(out@),
            forall|r: int| 0 <= r < q ==> !path_lt(key@, group_key(#[trigger] old_out[r])),
        decreases out@.len() - q,
    {
        q = q + 1;
    }
    let ghost stopped = q < out@.len();
    out.insert(q, g);
    let ghost np = perm.insert(q as int, n);
    let ghost new_out = group_views(out@);
    proof {
        assert(new_out =~= old_out.insert(q as int, gv));
        assert forall|k: int| 0 <= k < np.len() implies 0 <= #[trigger] np[k] < pre2.len() by {
            if k < q {
                assert(np[k] == perm[k]);
            } else if k > q {
                assert(np[k] == perm[k - 1]);
            }
        }
        assert forall|k: int| 0 <= k < np.len() implies new_out[k] == pre2[#[trigger] np[k]] by {
            if k < q {
                assert(np[k] == perm[k]);
                assert(pre2[perm[k]] == pre[perm[k]]);
            } else if k > q {
                assert(np[k] == perm[k - 1]);
                assert(pre2[perm[k - 1]] == pre[perm[k - 1]]);
            }
        }
        assert forall|k: int, l: int| 0 <= k < l < np.len() implies sorts_before(
            pre2,
            #[trigger] np[k],
            #[trigger] np[l],
        ) by {
            if k != q && l != q {
                let k0 = if k < q { k } else { k - 1 };
                let l0 = if l < q { l } else { l - 1 };
                assert(np[k] == perm[k0]);
                assert(np[l] == perm[l0]);
                assert(sorts_before(pre, perm[k0], perm[l0]));
                assert(pre2[perm[k0]] == pre[perm[k0]]);
                assert(pre2[perm[l0]] == pre[perm[l0]]);
            } else if l == q {
                // an earlier group: its key is not greater and it came first
                assert(np[k] == perm[k]);
                assert(old_out[k] == pre[perm[k]]);
                assert(!path_lt(key@, group_key(old_out[k])));
                lemma_path_lt_total(key@, group_key(old_out[k]));
                assert(pre2[perm[k]] == pre[perm[k]]);
                assert(pre2[n] == gv);
            } else {
                // k == q: a later group has a greater key
                assert(np[l] == perm[l - 1]);
                assert(pre2[perm[l - 1]] == pre[perm[l - 1]]);
                assert(pre2[n] == gv);
                let kq = group_key(old_out[q as int]);
                assert(path_lt(key@, kq));
                if l - 1 > q {
                    assert(sorts_before(pre, perm[q as int], perm[l - 1]));
                    assert(old_out[q as int] == pre[perm[q as int]]);
                    assert(old_out[l - 1] == pre[perm[l - 1]]);
                    if path_lt(kq, group_key(old_out[l - 1])) {
                        lemma_path_lt_transitive(key@, kq, group_key(old_out[l - 1]));
                    }
                }
            }
        }
    }
    Ghost(np)
}

} // verus!

verus! {

/// Group changes into directory commits (only when *every* file in the
/// directory changed with the same change type, tracked and untracked
/// alike, as `listings` shows) and individual file commits otherwise.
/// Each whole untracked directory is a directory commit of its own. The
/// groups come sorted by key; groups with equal keys keep their order.
pub fn group_changes_by_directory(changes: Vec<GitChange>, listings: &Vec<DirectoryListing>) -> (r:
    Vec<ChangeGroup>)
    ensures
        is_stable_sort(
            group_views(r@),
            unsorted_groups(change_views(changes@), listing_views(listings@)),
        ),
        forall|k: int|
            0 <= k < r@.len() ==> directory_group_ok(
                #[trigger] group_views(r@)[k],
                listing_views(listings@),
            ),
        forall|k: int, l: int|
            0 <= k < l < r@.len() ==> path_le(
                group_key(#[trigger] group_views(r@)[k]),
                group_key(#[trigger] group_views(r@)[l]),
            ),
        forall|f: FileChangeView|
            #[trigger] grouped_count(group_views(r@), f) == change_count(change_views(changes@), f),
        forall|k: int| 0 <= k < r@.len() ==> group_files(#[trigger] group_views(r@)[k]).len() > 0,
{
    let ghost cs = change_views(changes@);
    let ghost ls = listing_views(listings@);
    let ghost bd = bucket_dirs(cs);
    let (mut dirs, mut files) = collect_buckets(&changes);
    let mut out: Vec<ChangeGroup> = Vec::new();
    let ghost mut pre: Seq<GroupView> = Seq::empty();
    let ghost mut perm: Seq<int> = Seq::empty();
    let mut i: usize = 0;
    assert(cs.take(0) =~= Seq::<GitChangeView>::empty());
    while i < changes.len()
        invariant
            cs == change_views(changes@),
            i <= changes@.len(),
            pre == untracked_groups(cs.take(i as int)),
            stable_sort_witness(group_views(out@), pre, perm),
        decreases changes@.len() - i,
    {
        assert(cs.take(i + 1).drop_last() =~= cs.take(i as int));
        assert(cs.take(i + 1).last() == changes@[i as int]@);
        if untracked_dir(&changes[i]) {
            let path = as_path_bytes(changes[i].filename.as_slice());
            let mut one: Vec<FileChange> = Vec::new();
            one.push(file_of(&changes[i]));
            let g = ChangeGroup::Directory { path, change_type: changes[i].change_type, files: one };
            let ghost gv = g@;
            assert(file_views(one@) =~= seq![change_file(changes@[i as int]@)]);
            assert(gv == untracked_group(changes@[i as int]@));
            let np = insert_sorted(&mut out, g, Ghost(pre), Ghost(perm));
            proof {
                perm = np@;
                pre = pre.push(gv);
            }
        }
        i = i + 1;
    }
    assert(cs.take(changes@.len() as int) =~= cs);
    let ghost base = pre;
    let ghost mut j: int = 0;
    assert(bd.skip(0) =~= bd);
    assert(bucket_groups(cs, bd.take(0), ls) =~= Seq::<GroupView>::empty());
    while dirs.len() > 0
        invariant
            cs == change_views(changes@),
            ls == listing_views(listings@),
            bd == bucket_dirs(cs),
            0 <= j <= bd.len(),
            byte_strings(dirs@) == bd.skip(j),
            dirs@.len() == files@.len(),
            forall|t: int|
                0 <= t < dirs@.len() ==> file_views(#[trigger] files@[t]@) == bucket_files(
                    cs,
                    dirs@[t]@,
                ),
            pre == base + bucket_groups(cs, bd.take(j), ls),
            stable_sort_witness(group_views(out@), pre, perm),
        decreases dirs@.len(),
    {
        let ghost old_files = files@;
        let ghost old_dirs = dirs@;
        assert(byte_strings(old_dirs).len() == bd.skip(j).len());
        assert(j < bd.len());
        assert(bd.skip(j)[0] == bd[j]);
        assert(byte_strings(old_dirs)[0] == old_dirs[0]@);
        let d = dirs.remove(0);
        let fs = files.remove(0);
        assert(bd.skip(j)[0] == d@);
        assert(file_views(fs@) == bucket_files(cs, d@));
        let g = make_bucket_group(d, fs, listings);
        let ghost gv = g@;
        assert(bd[j] == d@);
        assert(gv == bucket_group(cs, bd[j], ls));
        let np = insert_sorted(&mut out, g, Ghost(pre), Ghost(perm));
        proof {
            perm = np@;
            pre = pre.push(gv);
            assert(bucket_groups(cs, bd.take(j + 1), ls) =~= bucket_groups(cs, bd.take(j), ls).push(
                gv,
            ));
            assert(base + bucket_groups(cs, bd.take(j + 1), ls) =~= (base + bucket_groups(
                cs,
                bd.take(j),
                ls,
            )).push(gv));
            assert forall|t: int| 0 <= t < dirs@.len() implies byte_strings(dirs@)[t] == bd.skip(
                j + 1,
            )[t] by {
                assert(dirs@[t] == old_dirs[t + 1]);
                assert(byte_strings(old_dirs)[t + 1] == bd.skip(j)[t + 1]);
            }
            assert(byte_strings(dirs@) =~= bd.skip(j + 1));
            assert forall|t: int| 0 <= t < dirs@.len() implies file_views(#[trigger] files@[t]@)
                == bucket_files(cs, dirs@[t]@) by {
                assert(files@[t] == old_files[t + 1]);
                assert(dirs@[t] == old_dirs[t + 1]);
            }
            j = j + 1;
        }
    }
    proof {
        assert(bd.len() == j) by {
            assert(bd.skip(j).len() == 0);
        }
        assert(bd.take(j) =~= bd);
        assert(pre =~= unsorted_groups(cs, ls));
        let ov = group_views(out@);
        assert(is_stable_sort(ov, pre));
        law_directory_groups_are_whole(cs, ls, ov);
        law_groups_in_key_order(ov, pre);
        law_groups_are_never_empty(cs, ls, ov);
        assert forall|f: FileChangeView| #[trigger] grouped_count(ov, f) == change_count(cs, f) by {
            law_grouping_partitions_changes(cs, ls, ov, f);
        }
    }
    out
}

/// The directories whose full listing decides their grouping, in path
/// order: those whose changed files may form a directory commit, each
/// named as in its group.
pub open spec fn directories_needing_listing(cs: Seq<GitChangeView>) -> Seq<Seq<u8>> {
    bucket_dirs(cs).filter(|d: Seq<u8>| directory_candidate(d, bucket_files(cs, d))).map_values(
        |d: Seq<u8>| bucket_rep(cs, d),
    )
}

/// The directories for which `group_changes_by_directory` needs to know
/// every file: the listings to gather before grouping.
pub fn directories_to_list(changes: &Vec<GitChange>) -> (r: Vec<Vec<u8>>)
    ensures
        byte_strings(r@) == directories_needing_listing(change_views(changes@)),
{
    let ghost cs = change_views(changes@);
    let ghost bd = bucket_dirs(cs);
    let ghost pred = |d: Seq<u8>| directory_candidate(d, bucket_files(cs, d));
    let ghost rep = |d: Seq<u8>| bucket_rep(cs, d);
    let (dirs, files) = collect_buckets(changes);
    let mut r: Vec<Vec<u8>> = Vec::new();
    let mut k: usize = 0;
    assert(bd.take(0).filter(pred) =~= Seq::<Seq<u8>>::empty()) by {
        reveal_with_fuel(Seq::<_>::filter, 1);
    }
    assert(bd.take(0).filter(pred).map_values(rep) =~= Seq::<Seq<u8>>::empty());
    while k < dirs.len()
        invariant
            cs == change_views(changes@),
            bd == bucket_dirs(cs),
            pred == (|d: Seq<u8>| directory_candidate(d, bucket_files(cs, d))),
            rep == (|d: Seq<u8>| bucket_rep(cs, d)),
            byte_strings(dirs@) == bd,
            dirs@.len() == files@.len(),
            forall|t: int|
                0 <= t < dirs@.len() ==> file_views(#[trigger] files@[t]@) == bucket_files(
                    cs,
                    dirs@[t]@,
                ),
            k <= dirs@.len(),
            byte_strings(r@) == bd.take(k as int).filter(pred).map_values(rep),
        decreases dirs@.len() - k,
    {
        assert(bd.take(k + 1).drop_last() =~= bd.take(k as int));
        assert(bd.take(k + 1).last() == dirs@[k as int]@);
        assert(file_views(files@[k as int]@) == bucket_files(cs, dirs@[k as int]@));
        reveal_with_fuel(Seq::<_>::filter, 1);
        let ghost before = byte_strings(r@);
        if is_directory_candidate(dirs[k].as_slice(), &files[k]) {
            assert(files@[k as int]@.len() > 0);
            let p = bucket_dir_bytes(files[k][0].filename.as_slice());
            assert(file_views(files@[k as int]@)[0] == files@[k as int]@[0]@);
            assert(p@ == rep(bd[k as int]));
            r.push(p);
            assert(bd.take(k + 1).filter(pred) =~= bd.take(k as int).filter(pred).push(bd[k as int]));
            assert(byte_strings(r@) =~= before.push(p@));
            assert(byte_strings(r@) =~= bd.take(k + 1).filter(pred).map_values(rep));
        } else {
            assert(bd.take(k + 1).filter(pred) =~= bd.take(k as int).filter(pred));
            assert(byte_strings(r@) =~= bd.take(k + 1).filter(pred).map_values(rep));
        }
        k = k + 1;
    }
    assert(bd.take(dirs@.len() as int) =~= bd);
    r
}

} // verus!

verus! {

/// The non-empty fields among `fields`, in order.
pub open spec fn nonempty_fields(fields: Seq<Seq<u8>>) -> Seq<Seq<u8>>
    decreases fields.len(),
{
    if fields.len() == 0 {
        Seq::empty()
    } else {
        let r = nonempty_fields(fields.drop_last());
        if fields.last().len() > 0 {
            r.push(fields.last())
        } else {
            r
        }
    }
}

/// The paths in `git ls-files -z` output.
pub open spec fn ls_files_paths(raw: Seq<u8>) -> Seq<Seq<u8>> {
    nonempty_fields(crate::status::split_fields(raw))
}

/// The paths in `git ls-files -z` output: its non-empty NUL-separated
/// fields.
pub fn parse_ls_files(raw: &[u8]) -> (r: Vec<Vec<u8>>)
    ensures
        byte_strings(r@) == ls_files_paths(raw@),
{
    let fields = crate::status::split_nul_fields(raw);
    let ghost fs = byte_strings(fields@);
    let mut r: Vec<Vec<u8>> = Vec::new();
    let mut i: usize = 0;
    assert(fs.take(0) =~= Seq::<Seq<u8>>::empty());
    while i < fields.len()
        invariant
            fs == byte_strings(fields@),
            i <= fields@.len(),
            byte_strings(r@) == nonempty_fields(fs.take(i as int)),
        decreases fields@.len() - i,
    {
        assert(fs.take(i + 1).drop_last() =~= fs.take(i as int));
        assert(fs.take(i + 1).last() == fields@[i as int]@);
        if fields[i].len() > 0 {
            let ghost before = r@;
            let p = copy_bytes(fields[i].as_slice());
            r.push(p);
            assert(byte_strings(r@) =~= byte_strings(before).push(p@));
        }
        i = i + 1;
    }
    assert(fs.take(fields@.len() as int) =~= fs);
    r
}

/// The listing of `dir` from the output of `git ls-files -z` (tracked
/// files) and `git ls-files -z --others --exclude-standard` (untracked files
/// that are not ignored) run on the literal pathspec of `dir`.
pub fn directory_listing(dir: &[u8], tracked_output: &[u8], others_output: &[u8]) -> (l:
    DirectoryListing)
    ensures
        l@.dir == dir@,
        l@.files == ls_files_paths(tracked_output@) + ls_files_paths(others_output@),
{
    let mut files = parse_ls_files(tracked_output);
    let others = parse_ls_files(others_output);
    let ghost first = byte_strings(files@);
    let mut i: usize = 0;
    while i < others.len()
        invariant
            i <= others@.len(),
            byte_strings(files@) == first + byte_strings(others@).take(i as int),
        decreases others@.len() - i,
    {
        let ghost before = files@;
        let p = copy_bytes(others[i].as_slice());
        files.push(p);
        assert(byte_strings(files@) =~= byte_strings(before).push(p@));
        assert(byte_strings(others@).take(i + 1) =~= byte_strings(others@).take(i as int).push(p@));
        i = i + 1;
    }
    assert(byte_strings(others@).take(others@.len() as int) =~= byte_strings(others@));
    DirectoryListing { dir: copy_bytes(dir), files }
}

} // verus!

verus! {

/// The rules a directory group follows. Either it is one whole untracked
/// directory, added, named after the record without its trailing
/// separators; or it is a directory other than the top of the working tree,
/// named as the parent of its first file, whose files all lie directly in
/// it (as `Path`s), share its change type, which is neither a rename nor a
/// copy, and are, as `Path`s, exactly every file listed there.
pub open spec fn directory_group_ok(g: GroupView, ls: Seq<ListingView>) -> bool {
    match g {
        GroupView::Directory { path, change_type, files } => {
            ||| {
                &&& files.len() == 1
                &&& change_type == ChangeType::Add
                &&& files[0].change_type == ChangeType::Add
                &&& ends_with_slash(files[0].filename)
                &&& path == as_path(files[0].filename)
            }
            ||| {
                &&& path_key(path) != dot_key()
                &&& files.len() > 0
                &&& path == bucket_dir(files[0].filename)
                &&& change_type != ChangeType::Rename
                &&& change_type != ChangeType::Copy
                &&& forall|i: int|
                    0 <= i < files.len() ==> (#[trigger] files[i]).change_type == change_type
                        && dir_key(files[i].filename) == path_key(path)
                &&& file_names(files) == listed_files(ls, path_key(path))
            }
        },
        GroupView::Individual { .. } => true,
    }
}

proof fn lemma_untracked_groups_ok(cs: Seq<GitChangeView>, ls: Seq<ListingView>)
    ensures
        forall|k: int|
            0 <= k < untracked_groups(cs).len() ==> directory_group_ok(
                #[trigger] untracked_groups(cs)[k],
                ls,
            ),
    decreases cs.len(),
{
    if cs.len() > 0 {
        lemma_untracked_groups_ok(cs.drop_last(), ls);
        let r = untracked_groups(cs.drop_last());
        assert forall|k: int| 0 <= k < untracked_groups(cs).len() implies directory_group_ok(
            #[trigger] untracked_groups(cs)[k],
            ls,
        ) by {
            if k < r.len() {
                assert(untracked_groups(cs)[k] == r[k]);
            }
        }
    }
}

proof fn lemma_bucket_files_lie_in(cs: Seq<GitChangeView>, d: Seq<u8>)
    ensures
        forall|i: int|
            0 <= i < bucket_files(cs, d).len() ==> dir_key(
                (#[trigger] bucket_files(cs, d)[i]).filename,
            ) == d,
    decreases cs.len(),
{
    if cs.len() > 0 {
        lemma_bucket_files_lie_in(cs.drop_last(), d);
        let r = bucket_files(cs.drop_last(), d);
        assert forall|i: int| 0 <= i < bucket_files(cs, d).len() implies dir_key(
            (#[trigger] bucket_files(cs, d)[i]).filename,
        ) == d by {
            if i < r.len() {
                assert(bucket_files(cs, d)[i] == r[i]);
            }
        }
    }
}

proof fn lemma_bucket_group_ok(cs: Seq<GitChangeView>, d: Seq<u8>, ls: Seq<ListingView>)
    ensures
        directory_group_ok(bucket_group(cs, d, ls), ls),
{
    let fs = bucket_files(cs, d);
    lemma_bucket_files_lie_in(cs, d);
    if whole_directory(d, fs, ls) {
        assert forall|i: int| 0 <= i < fs.len() implies (#[trigger] fs[i]).change_type
            == fs[0].change_type && dir_key(fs[i].filename) == d by {}
    }
}

/// Every directory group follows the rules of `directory_group_ok`: only a
/// directory whose every file changed alike becomes one commit, never the
/// top of the working tree, never a rename or a copy.
pub proof fn law_directory_groups_are_whole(
    cs: Seq<GitChangeView>,
    ls: Seq<ListingView>,
    out: Seq<GroupView>,
)
    requires
        is_stable_sort(out, unsorted_groups(cs, ls)),
    ensures
        forall|k: int| 0 <= k < out.len() ==> directory_group_ok(#[trigger] out[k], ls),
{
    let pre = unsorted_groups(cs, ls);
    let perm = choose|perm: Seq<int>| stable_sort_witness(out, pre, perm);
    let u = untracked_groups(cs);
    let b = bucket_groups(cs, bucket_dirs(cs), ls);
    lemma_untracked_groups_ok(cs, ls);
    assert forall|k: int| 0 <= k < out.len() implies directory_group_ok(#[trigger] out[k], ls) by {
        let m = perm[k];
        assert(out[k] == pre[m]);
        if m < u.len() {
            assert(pre[m] == u[m]);
        } else {
            assert(pre[m] == b[m - u.len()]);
            lemma_bucket_group_ok(cs, bucket_dirs(cs)[m - u.len()], ls);
        }
    }
}

/// A rename or a copy is never part of a directory commit: it is always
/// committed on its own.
pub proof fn law_renames_and_copies_commit_alone(
    cs: Seq<GitChangeView>,
    ls: Seq<ListingView>,
    out: Seq<GroupView>,
)
    requires
        is_stable_sort(out, unsorted_groups(cs, ls)),
    ensures
        forall|k: int, i: int|
            0 <= k < out.len() && out[k] is Directory && 0 <= i < group_files(out[k]).len() ==> {
                let f = #[trigger] group_files(out[k])[i];
                f.change_type != ChangeType::Rename && f.change_type != ChangeType::Copy
            },
{
    law_directory_groups_are_whole(cs, ls, out);
    assert forall|k: int, i: int|
        0 <= k < out.len() && out[k] is Directory && 0 <= i < group_files(out[k]).len() implies {
            let f = #[trigger] group_files(out[k])[i];
            f.change_type != ChangeType::Rename && f.change_type != ChangeType::Copy
        } by {
        assert(directory_group_ok(out[k], ls));
    }
}

/// The groups come in the order of their keys.
pub proof fn law_groups_in_key_order(out: Seq<GroupView>, pre: Seq<GroupView>)
    requires
        is_stable_sort(out, pre),
    ensures
        forall|k: int, l: int|
            0 <= k < l < out.len() ==> path_le(group_key(#[trigger] out[k]), group_key(
                #[trigger] out[l],
            )),
{
    let perm = choose|perm: Seq<int>| stable_sort_witness(out, pre, perm);
    assert forall|k: int, l: int| 0 <= k < l < out.len() implies path_le(
        group_key(#[trigger] out[k]),
        group_key(#[trigger] out[l]),
    ) by {
        assert(sorts_before(pre, perm[k], perm[l]));
        assert(out[k] == pre[perm[k]]);
        assert(out[l] == pre[perm[l]]);
    }
}

} // verus!

verus! {

/// How many times `f` occurs in `fs`.
pub open spec fn file_count(fs: Seq<FileChangeView>, f: FileChangeView) -> nat
    decreases fs.len(),
{
    if fs.len() == 0 {
        0
    } else {
        file_count(fs.drop_last(), f) + if fs.last() == f {
            1nat
        } else {
            0nat
        }
    }
}

/// How many times `f` occurs among the files of the groups.
pub open spec fn grouped_count(gs: Seq<GroupView>, f: FileChangeView) -> nat
    decreases gs.len(),
{
    if gs.len() == 0 {
        0
    } else {
        grouped_count(gs.drop_last(), f) + file_count(group_files(gs.last()), f)
    }
}

/// How many of the changes have `f` as their file change.
pub open spec fn change_count(cs: Seq<GitChangeView>, f: FileChangeView) -> nat
    decreases cs.len(),
{
    if cs.len() == 0 {
        0
    } else {
        change_count(cs.drop_last(), f) + if change_file(cs.last()) == f {
            1nat
        } else {
            0nat
        }
    }
}

/// How many untracked directory records have `f` as their file change.
spec fn untracked_count(cs: Seq<GitChangeView>, f: FileChangeView) -> nat
    decreases cs.len(),
{
    if cs.len() == 0 {
        0
    } else {
        untracked_count(cs.drop_last(), f) + if is_untracked_dir(cs.last()) && change_file(
            cs.last(),
        ) == f {
            1nat
        } else {
            0nat
        }
    }
}

/// How many other changes have `f` as their file change.
spec fn tracked_count(cs: Seq<GitChangeView>, f: FileChangeView) -> nat
    decreases cs.len(),
{
    if cs.len() == 0 {
        0
    } else {
        tracked_count(cs.drop_last(), f) + if !is_untracked_dir(cs.last()) && change_file(
            cs.last(),
        ) == f {
            1nat
        } else {
            0nat
        }
    }
}

proof fn lemma_change_count_split(cs: Seq<GitChangeView>, f: FileChangeView)
    ensures
        change_count(cs, f) == untracked_count(cs, f) + tracked_count(cs, f),
    decreases cs.len(),
{
    if cs.len() > 0 {
        lemma_change_count_split(cs.drop_last(), f);
    }
}

proof fn lemma_grouped_count_concat(a: Seq<GroupView>, b: Seq<GroupView>, f: FileChangeView)
    ensures
        grouped_count(a + b, f) == grouped_count(a, f) + grouped_count(b, f),
    decreases b.len(),
{
    if b.len() == 0 {
        assert(a + b =~= a);
    } else {
        assert((a + b).drop_last() =~= a + b.drop_last());
        lemma_grouped_count_concat(a, b.drop_last(), f);
    }
}

proof fn lemma_grouped_count_remove(gs: Seq<GroupView>, m: int, f: FileChangeView)
    requires
        0 <= m < gs.len(),
    ensures
        grouped_count(gs, f) == grouped_count(gs.remove(m), f) + file_count(group_files(gs[m]), f),
    decreases gs.len(),
{
    if m < gs.len() - 1 {
        assert(gs.remove(m).drop_last() =~= gs.drop_last().remove(m));
        assert(gs.remove(m).last() == gs.last());
        lemma_grouped_count_remove(gs.drop_last(), m, f);
    } else {
        assert(gs.remove(m) =~= gs.drop_last());
    }
}

/// `out` lists the groups of `pre`, each once, in some order.
spec fn is_reindexing(out: Seq<GroupView>, pre: Seq<GroupView>, perm: Seq<int>) -> bool {
    &&& out.len() == pre.len()
    &&& perm.len() == out.len()
    &&& forall|k: int| 0 <= k < perm.len() ==> 0 <= #[trigger] perm[k] < pre.len()
    &&& forall|k: int| 0 <= k < perm.len() ==> out[k] == pre[#[trigger] perm[k]]
    &&& forall|k: int, l: int|
        0 <= k < perm.len() && 0 <= l < perm.len() && k != l ==> #[trigger] perm[k]
            != #[trigger] perm[l]
}

proof fn lemma_reindexing_count(out: Seq<GroupView>, pre: Seq<GroupView>, perm: Seq<int>, f: FileChangeView)
    requires
        is_reindexing(out, pre, perm),
    ensures
        grouped_count(out, f) == grouped_count(pre, f),
    decreases out.len(),
{
    if out.len() > 0 {
        let n = out.len() - 1;
        let m = perm[n];
        let pre2 = pre.remove(m);
        let out2 = out.drop_last();
        let perm2 = Seq::new(
            n as nat,
            |k: int|
                if perm[k] < m {
                    perm[k]
                } else {
                    perm[k] - 1
                },
        );
        assert forall|k: int| 0 <= k < perm2.len() implies 0 <= #[trigger] perm2[k] < pre2.len() by {
            assert(perm[k] != perm[n]);
        }
        assert forall|k: int| 0 <= k < perm2.len() implies out2[k] == pre2[#[trigger] perm2[k]] by {
            assert(perm[k] != perm[n]);
            assert(out[k] == pre[perm[k]]);
        }
        assert forall|k: int, l: int|
            0 <= k < perm2.len() && 0 <= l < perm2.len() && k != l implies #[trigger] perm2[k]
            != #[trigger] perm2[l] by {
            assert(perm[k] != perm[l]);
            assert(perm[k] != perm[n]);
            assert(perm[l] != perm[n]);
        }
        lemma_reindexing_count(out2, pre2, perm2, f);
        lemma_grouped_count_remove(pre, m, f);
        assert(out.last() == pre[m]);
    }
}

proof fn lemma_untracked_count(cs: Seq<GitChangeView>, f: FileChangeView)
    ensures
        grouped_count(untracked_groups(cs), f) == untracked_count(cs, f),
    decreases cs.len(),
{
    if cs.len() > 0 {
        lemma_untracked_count(cs.drop_last(), f);
        if is_untracked_dir(cs.last()) {
            let r = untracked_groups(cs.drop_last());
            assert(untracked_groups(cs).drop_last() =~= r);
            let one = seq![change_file(cs.last())];
            assert(one.drop_last() =~= Seq::<FileChangeView>::empty());
            assert(file_count(one.drop_last(), f) == 0);
            assert(one.last() == change_file(cs.last()));
            assert(untracked_groups(cs).last() == untracked_group(cs.last()));
            assert(group_files(untracked_group(cs.last())) == one);
        }
    }
}

proof fn lemma_bucket_count(cs: Seq<GitChangeView>, d: Seq<u8>, f: FileChangeView)
    ensures
        file_count(bucket_files(cs, d), f) == if dir_key(f.filename) == d {
            tracked_count(cs, f)
        } else {
            0
        },
    decreases cs.len(),
{
    if cs.len() > 0 {
        lemma_bucket_count(cs.drop_last(), d, f);
        let c = cs.last();
        if in_bucket(c, d) {
            assert(bucket_files(cs, d).drop_last() =~= bucket_files(cs.drop_last(), d));
        }
    }
}

proof fn lemma_no_bucket_no_tracked(cs: Seq<GitChangeView>, f: FileChangeView)
    requires
        !has_bucket(cs, dir_key(f.filename)),
    ensures
        tracked_count(cs, f) == 0,
    decreases cs.len(),
{
    if cs.len() > 0 {
        assert forall|i: int| 0 <= i < cs.drop_last().len() implies !in_bucket(
            #[trigger] cs.drop_last()[i],
            dir_key(f.filename),
        ) by {
            assert(cs.drop_last()[i] == cs[i]);
        }
        lemma_no_bucket_no_tracked(cs.drop_last(), f);
        assert(!in_bucket(cs[cs.len() - 1], dir_key(f.filename)));
    }
}

proof fn lemma_bucket_groups_count(
    cs: Seq<GitChangeView>,
    ds: Seq<Seq<u8>>,
    ls: Seq<ListingView>,
    f: FileChangeView,
)
    requires
        strictly_sorted(ds),
    ensures
        grouped_count(bucket_groups(cs, ds, ls), f) == if ds.contains(dir_key(f.filename)) {
            tracked_count(cs, f)
        } else {
            0
        },
    decreases ds.len(),
{
    if ds.len() > 0 {
        let d0 = ds.drop_last();
        assert(strictly_sorted(d0)) by {
            assert forall|i: int, j: int| 0 <= i < j < d0.len() implies path_lt(
                #[trigger] d0[i],
                #[trigger] d0[j],
            ) by {
                assert(d0[i] == ds[i] && d0[j] == ds[j]);
            }
        }
        lemma_bucket_groups_count(cs, d0, ls, f);
        assert(bucket_groups(cs, ds, ls).drop_last() =~= bucket_groups(cs, d0, ls));
        let d = ds.last();
        assert(group_files(bucket_group(cs, d, ls)) == bucket_files(cs, d));
        lemma_bucket_count(cs, d, f);
        let p = dir_key(f.filename);
        if p == d {
            assert(!d0.contains(d)) by {
                if d0.contains(d) {
                    let i = choose|i: int| 0 <= i < d0.len() && d0[i] == d;
                    assert(path_lt(ds[i], ds[ds.len() - 1]));
                    lemma_path_lt_irreflexive(d);
                }
            }
            assert(ds.contains(d));
        } else {
            assert(ds.contains(p) == d0.contains(p)) by {
                if ds.contains(p) {
                    let i = choose|i: int| 0 <= i < ds.len() && ds[i] == p;
                    assert(d0[i] == p);
                }
                if d0.contains(p) {
                    let i = choose|i: int| 0 <= i < d0.len() && d0[i] == p;
                    assert(ds[i] == p);
                }
            }
        }
    }
}

/// Where `d` goes in the strictly sorted `r` that lacks it.
proof fn lemma_insert_point(r: Seq<Seq<u8>>, d: Seq<u8>) -> (p: int)
    requires
        strictly_sorted(r),
        !r.contains(d),
    ensures
        0 <= p <= r.len(),
        forall|i: int| 0 <= i < p ==> path_lt(#[trigger] r[i], d),
        forall|i: int| p <= i < r.len() ==> path_lt(d, #[trigger] r[i]),
    decreases r.len(),
{
    if r.len() == 0 {
        0
    } else {
        let r0 = r.drop_last();
        assert(strictly_sorted(r0)) by {
            assert forall|i: int, j: int| 0 <= i < j < r0.len() implies path_lt(
                #[trigger] r0[i],
                #[trigger] r0[j],
            ) by {
                assert(r0[i] == r[i] && r0[j] == r[j]);
            }
        }
        assert(!r0.contains(d)) by {
            if r0.contains(d) {
                let i = choose|i: int| 0 <= i < r0.len() && r0[i] == d;
                assert(r[i] == d);
            }
        }
        let q = lemma_insert_point(r0, d);
        let last = r[r.len() - 1];
        assert(last != d) by {
            assert(r.contains(last));
        }
        lemma_path_lt_total(last, d);
        if path_lt(last, d) {
            assert forall|i: int| 0 <= i < r.len() implies path_lt(#[trigger] r[i], d) by {
                if i < r.len() - 1 {
                    assert(path_lt(r[i], last));
                    lemma_path_lt_transitive(r[i], last, d);
                }
            }
            r.len() as int
        } else {
            assert forall|i: int| 0 <= i < q implies path_lt(#[trigger] r[i], d) by {
                assert(r0[i] == r[i]);
            }
            assert forall|i: int| q <= i < r.len() implies path_lt(d, #[trigger] r[i]) by {
                if i < r.len() - 1 {
                    assert(r0[i] == r[i]);
                }
            }
            q
        }
    }
}

/// A strictly sorted list of the directories that changes lie in.
proof fn lemma_dirs_witness(cs: Seq<GitChangeView>) -> (ds: Seq<Seq<u8>>)
    ensures
        strictly_sorted(ds),
        forall|d: Seq<u8>| #[trigger] ds.contains(d) <==> has_bucket(cs, d),
    decreases cs.len(),
{
    if cs.len() == 0 {
        Seq::empty()
    } else {
        let prev = cs.drop_last();
        let r = lemma_dirs_witness(prev);
        let c = cs.last();
        assert forall|d: Seq<u8>| has_bucket(cs, d) <==> has_bucket(prev, d) || in_bucket(c, d) by {
            if has_bucket(cs, d) {
                let k = choose|k: int| 0 <= k < cs.len() && in_bucket(cs[k], d);
                if k < prev.len() {
                    assert(prev[k] == cs[k]);
                }
            }
            if has_bucket(prev, d) {
                let k = choose|k: int| 0 <= k < prev.len() && in_bucket(prev[k], d);
                assert(cs[k] == prev[k]);
            }
            if in_bucket(c, d) {
                assert(cs[cs.len() - 1] == c);
            }
        }
        let d = dir_key(c.filename);
        if is_untracked_dir(c) || r.contains(d) {
            r
        } else {
            let p = lemma_insert_point(r, d);
            let ds = r.insert(p, d);
            assert forall|a: int, b: int| 0 <= a < b < ds.len() implies path_lt(
                #[trigger] ds[a],
                #[trigger] ds[b],
            ) by {
                if b == p {
                    assert(path_lt(r[a], d));
                } else if a == p {
                    assert(path_lt(d, r[b - 1]));
                } else if a < p && b > p {
                    assert(path_lt(r[a], r[b - 1]));
                } else if a > p {
                    assert(path_lt(r[a - 1], r[b - 1]));
                }
            }
            assert forall|e: Seq<u8>| #[trigger] ds.contains(e) <==> has_bucket(cs, e) by {
                if ds.contains(e) {
                    let k = choose|k: int| 0 <= k < ds.len() && ds[k] == e;
                    if k < p {
                        assert(r.contains(r[k]));
                    } else if k > p {
                        assert(r.contains(r[k - 1]));
                    }
                }
                if r.contains(e) {
                    let k = choose|k: int| 0 <= k < r.len() && r[k] == e;
                    if k < p {
                        assert(ds[k] == e);
                    } else {
                        assert(ds[k + 1] == e);
                    }
                }
                if in_bucket(c, e) {
                    assert(ds[p] == e);
                }
            }
            ds
        }
    }
}

/// The directories that changes lie in, listed once each in path order.
proof fn lemma_bucket_dirs_exist(cs: Seq<GitChangeView>)
    ensures
        strictly_sorted(bucket_dirs(cs)),
        forall|d: Seq<u8>| #[trigger] bucket_dirs(cs).contains(d) <==> has_bucket(cs, d),
{
    let w = lemma_dirs_witness(cs);
    assert(strictly_sorted(w) && forall|d: Seq<u8>| #[trigger] w.contains(d) <==> has_bucket(cs, d));
}

/// Grouping neither loses nor duplicates a change: every file change
/// occurs among the groups exactly as often as among the changes.
pub proof fn law_grouping_partitions_changes(
    cs: Seq<GitChangeView>,
    ls: Seq<ListingView>,
    out: Seq<GroupView>,
    f: FileChangeView,
)
    requires
        is_stable_sort(out, unsorted_groups(cs, ls)),
    ensures
        grouped_count(out, f) == change_count(cs, f),
{
    let pre = unsorted_groups(cs, ls);
    let perm = choose|perm: Seq<int>| stable_sort_witness(out, pre, perm);
    assert forall|k: int, l: int|
        0 <= k < perm.len() && 0 <= l < perm.len() && k != l implies #[trigger] perm[k]
        != #[trigger] perm[l] by {
        if k < l {
            assert(sorts_before(pre, perm[k], perm[l]));
        } else {
            assert(sorts_before(pre, perm[l], perm[k]));
        }
        if perm[k] == perm[l] {
            lemma_path_lt_irreflexive(group_key(pre[perm[k]]));
        }
    }
    lemma_reindexing_count(out, pre, perm, f);
    let bd = bucket_dirs(cs);
    lemma_grouped_count_concat(untracked_groups(cs), bucket_groups(cs, bd, ls), f);
    lemma_untracked_count(cs, f);
    lemma_bucket_dirs_exist(cs);
    lemma_bucket_groups_count(cs, bd, ls, f);
    if !bd.contains(dir_key(f.filename)) {
        lemma_no_bucket_no_tracked(cs, f);
    }
    lemma_change_count_split(cs, f);
}

} // verus!

verus! {

/// A file at the top of the working tree is never part of a directory
/// commit, unless it is itself a whole untracked directory.
pub proof fn law_root_files_commit_alone(
    cs: Seq<GitChangeView>,
    ls: Seq<ListingView>,
    out: Seq<GroupView>,
)
    requires
        is_stable_sort(out, unsorted_groups(cs, ls)),
    ensures
        forall|k: int, i: int|
            0 <= k < out.len() && out[k] is Directory && 0 <= i < group_files(out[k]).len()
                && dir_key((#[trigger] group_files(out[k])[i]).filename) == dot_key() ==> {
                &&& group_files(out[k]).len() == 1
                &&& ends_with_slash(group_files(out[k])[0].filename)
            },
{
    law_directory_groups_are_whole(cs, ls, out);
    assert forall|k: int, i: int|
        0 <= k < out.len() && out[k] is Directory && 0 <= i < group_files(out[k]).len()
            && dir_key((#[trigger] group_files(out[k])[i]).filename) == dot_key() implies {
            &&& group_files(out[k]).len() == 1
            &&& ends_with_slash(group_files(out[k])[0].filename)
        } by {
        assert(directory_group_ok(out[k], ls));
    }
}

} // verus!

verus! {

/// The reordering behind a stable sort reaches every group.
proof fn lemma_stable_sort_onto(out: Seq<GroupView>, pre: Seq<GroupView>, m: int) -> (k: int)
    requires
        is_stable_sort(out, pre),
        0 <= m < pre.len(),
    ensures
        0 <= k < out.len(),
        out[k] == pre[m],
{
    let perm = choose|perm: Seq<int>| stable_sort_witness(out, pre, perm);
    assert(perm.no_duplicates()) by {
        assert forall|a: int, b: int|
            0 <= a < perm.len() && 0 <= b < perm.len() && a != b implies perm[a] != perm[b] by {
            if a < b {
                assert(sorts_before(pre, perm[a], perm[b]));
            } else {
                assert(sorts_before(pre, perm[b], perm[a]));
            }
            if perm[a] == perm[b] {
                lemma_path_lt_irreflexive(group_key(pre[perm[a]]));
            }
        }
    }
    perm.unique_seq_to_set();
    let range = vstd::set_lib::set_int_range(0, pre.len() as int);
    vstd::set_lib::lemma_int_range(0, pre.len() as int);
    assert(perm.to_set().subset_of(range)) by {
        assert forall|x: int| perm.to_set().contains(x) implies range.contains(x) by {
            let a = choose|a: int| 0 <= a < perm.len() && perm[a] == x;
            assert(0 <= perm[a] < pre.len());
        }
    }
    vstd::seq_lib::seq_to_set_is_finite(perm);
    vstd::set_lib::lemma_subset_equality(perm.to_set(), range);
    assert(range.contains(m));
    assert(perm.to_set().contains(m));
    let k = choose|k: int| 0 <= k < perm.len() && perm[k] == m;
    k
}

/// An untracked directory record has its group among the untracked groups.
proof fn lemma_untracked_group_present(cs: Seq<GitChangeView>, i: int) -> (j: int)
    requires
        0 <= i < cs.len(),
        is_untracked_dir(cs[i]),
    ensures
        0 <= j < untracked_groups(cs).len(),
        untracked_groups(cs)[j] == untracked_group(cs[i]),
    decreases cs.len(),
{
    if i == cs.len() - 1 {
        (untracked_groups(cs).len() - 1) as int
    } else {
        assert(cs.drop_last()[i] == cs[i]);
        let j = lemma_untracked_group_present(cs.drop_last(), i);
        j
    }
}

/// Every directory that changes lie in gets its group: one directory commit
/// when its files make up the whole directory (`whole_directory`), one
/// individual group of its files otherwise.
pub proof fn law_each_directory_gets_its_group(
    cs: Seq<GitChangeView>,
    ls: Seq<ListingView>,
    out: Seq<GroupView>,
    d: Seq<u8>,
)
    requires
        is_stable_sort(out, unsorted_groups(cs, ls)),
        has_bucket(cs, d),
    ensures
        exists|k: int| 0 <= k < out.len() && #[trigger] out[k] == bucket_group(cs, d, ls),
{
    let bd = bucket_dirs(cs);
    lemma_bucket_dirs_exist(cs);
    assert(bd.contains(d));
    let j = choose|j: int| 0 <= j < bd.len() && bd[j] == d;
    let u = untracked_groups(cs);
    let pre = unsorted_groups(cs, ls);
    assert(pre[u.len() + j] == bucket_groups(cs, bd, ls)[j]);
    let k = lemma_stable_sort_onto(out, pre, u.len() + j);
    assert(out[k] == bucket_group(cs, d, ls));
}

/// Every whole untracked directory is committed as one addition of that
/// directory.
pub proof fn law_untracked_directories_commit_as_one(
    cs: Seq<GitChangeView>,
    ls: Seq<ListingView>,
    out: Seq<GroupView>,
    i: int,
)
    requires
        is_stable_sort(out, unsorted_groups(cs, ls)),
        0 <= i < cs.len(),
        is_untracked_dir(cs[i]),
    ensures
        exists|k: int| 0 <= k < out.len() && #[trigger] out[k] == untracked_group(cs[i]),
{
    let j = lemma_untracked_group_present(cs, i);
    let pre = unsorted_groups(cs, ls);
    assert(pre[j] == untracked_groups(cs)[j]);
    let k = lemma_stable_sort_onto(out, pre, j);
    assert(out[k] == untracked_group(cs[i]));
}

} // verus!

verus! {

/// A directory that a change lies in has that change among its files.
proof fn lemma_bucket_nonempty(cs: Seq<GitChangeView>, d: Seq<u8>)
    requires
        has_bucket(cs, d),
    ensures
        bucket_files(cs, d).len() > 0,
    decreases cs.len(),
{
    if !in_bucket(cs.last(), d) {
        let i = choose|i: int| 0 <= i < cs.len() && in_bucket(#[trigger] cs[i], d);
        assert(i < cs.len() - 1);
        assert(cs.drop_last()[i] == cs[i]);
        lemma_bucket_nonempty(cs.drop_last(), d);
    }
}

/// Every untracked directory group holds its one record.
proof fn lemma_untracked_groups_single(cs: Seq<GitChangeView>)
    ensures
        forall|k: int|
            0 <= k < untracked_groups(cs).len() ==> group_files(
                #[trigger] untracked_groups(cs)[k],
            ).len() == 1,
    decreases cs.len(),
{
    if cs.len() > 0 {
        lemma_untracked_groups_single(cs.drop_last());
        let r = untracked_groups(cs.drop_last());
        assert forall|k: int| 0 <= k < untracked_groups(cs).len() implies group_files(
            #[trigger] untracked_groups(cs)[k],
        ).len() == 1 by {
            if k < r.len() {
                assert(untracked_groups(cs)[k] == r[k]);
            }
        }
    }
}

/// No group is empty: every group holds at least one file.
pub proof fn law_groups_are_never_empty(
    cs: Seq<GitChangeView>,
    ls: Seq<ListingView>,
    out: Seq<GroupView>,
)
    requires
        is_stable_sort(out, unsorted_groups(cs, ls)),
    ensures
        forall|k: int| 0 <= k < out.len() ==> group_files(#[trigger] out[k]).len() > 0,
{
    let pre = unsorted_groups(cs, ls);
    let perm = choose|perm: Seq<int>| stable_sort_witness(out, pre, perm);
    let u = untracked_groups(cs);
    let bd = bucket_dirs(cs);
    let b = bucket_groups(cs, bd, ls);
    lemma_untracked_groups_single(cs);
    lemma_bucket_dirs_exist(cs);
    assert forall|k: int| 0 <= k < out.len() implies group_files(#[trigger] out[k]).len() > 0 by {
        let m = perm[k];
        assert(out[k] == pre[m]);
        if m < u.len() {
            assert(pre[m] == u[m]);
        } else {
            let j = m - u.len();
            assert(pre[m] == b[j]);
            assert(b[j] == bucket_group(cs, bd[j], ls));
            assert(bd.contains(bd[j]));
            lemma_bucket_nonempty(cs, bd[j]);
            assert(group_files(bucket_group(cs, bd[j], ls)) == bucket_files(cs, bd[j]));
        }
    }
}

} // verus!

verus! {

/// The groups come in the order of the `Path`s they sort by.
pub proof fn law_groups_in_path_order(out: Seq<GroupView>, pre: Seq<GroupView>, k: int, l: int)
    requires
        is_stable_sort(out, pre),
        0 <= k < l < out.len(),
    ensures
        components_lt(components(raw_key(out[k])), components(raw_key(out[l])))
            || components(raw_key(out[k])) == components(raw_key(out[l])),
{
    law_groups_in_key_order(out, pre);
    assert(path_le(group_key(out[k]), group_key(out[l])));
    law_keys_order_paths(raw_key(out[k]), raw_key(out[l]));
    law_keys_identify_paths(raw_key(out[k]), raw_key(out[l]));
}

/// The files of an individual group all lie in one directory, as `Path`s.
pub proof fn law_individual_groups_share_a_directory(
    cs: Seq<GitChangeView>,
    ls: Seq<ListingView>,
    out: Seq<GroupView>,
    k: int,
    i: int,
    j: int,
)
    requires
        is_stable_sort(out, unsorted_groups(cs, ls)),
        0 <= k < out.len(),
        out[k] is Individual,
        0 <= i < group_files(out[k]).len(),
        0 <= j < group_files(out[k]).len(),
    ensures
        components(bucket_dir(group_files(out[k])[i].filename)) == components(
            bucket_dir(group_files(out[k])[j].filename),
        ),
{
    let pre = unsorted_groups(cs, ls);
    let perm = choose|perm: Seq<int>| stable_sort_witness(out, pre, perm);
    let u = untracked_groups(cs);
    let bd = bucket_dirs(cs);
    let b = bucket_groups(cs, bd, ls);
    let m = perm[k];
    assert(out[k] == pre[m]);
    lemma_untracked_groups_single(cs);
    if m < u.len() {
        assert(pre[m] == u[m]);
        lemma_untracked_groups_are_directories(cs);
    } else {
        let d = bd[m - u.len()];
        assert(pre[m] == b[m - u.len()]);
        assert(b[m - u.len()] == bucket_group(cs, d, ls));
        lemma_bucket_files_lie_in(cs, d);
        let fi = group_files(out[k])[i].filename;
        let fj = group_files(out[k])[j].filename;
        assert(dir_key(fi) == d);
        assert(dir_key(fj) == d);
        law_keys_identify_paths(bucket_dir(fi), bucket_dir(fj));
    }
}

/// Every untracked directory group is a directory group.
proof fn lemma_untracked_groups_are_directories(cs: Seq<GitChangeView>)
    ensures
        forall|k: int|
            0 <= k < untracked_groups(cs).len() ==> (#[trigger] untracked_groups(cs)[k]) is Directory,
    decreases cs.len(),
{
    if cs.len() > 0 {
        lemma_untracked_groups_are_directories(cs.drop_last());
        let r = untracked_groups(cs.drop_last());
        assert forall|k: int| 0 <= k < untracked_groups(cs).len() implies (#[trigger] untracked_groups(
            cs,
        )[k]) is Directory by {
            if k < r.len() {
                assert(untracked_groups(cs)[k] == r[k]);
            }
        }
    }
}

} // verus!


verus! {

/// A whole directory is one directory commit, whatever its one change type
/// other than a rename or a copy (a directory of new files too): when the
/// changes that lie in a directory other than the top of the working tree
/// all share change type `t`, and their names are, as `Path`s, exactly the
/// files listed there, the groups hold one directory group for it, named
/// after the directory of its first file, holding those changes.
pub proof fn law_whole_directories_commit_as_one(
    cs: Seq<GitChangeView>,
    ls: Seq<ListingView>,
    out: Seq<GroupView>,
    d: Seq<u8>,
    t: ChangeType,
)
    requires
        is_stable_sort(out, unsorted_groups(cs, ls)),
        has_bucket(cs, d),
        d != dot_key(),
        forall|i: int|
            0 <= i < bucket_files(cs, d).len() ==> (#[trigger] bucket_files(cs, d)[i]).change_type
                == t,
        t != ChangeType::Rename,
        t != ChangeType::Copy,
        file_names(bucket_files(cs, d)) == listed_files(ls, d),
    ensures
        exists|k: int|
            0 <= k < out.len() && #[trigger] out[k] == (GroupView::Directory {
                path: bucket_dir(bucket_files(cs, d)[0].filename),
                change_type: t,
                files: bucket_files(cs, d),
            }),
{
    lemma_bucket_nonempty(cs, d);
    let fs = bucket_files(cs, d);
    assert(fs[0].change_type == t);
    assert(whole_directory(d, fs, ls));
    law_each_directory_gets_its_group(cs, ls, out, d);
}

/// Every whole untracked directory, at any depth, is one addition of that
/// directory: a change of type `Add` whose worktree side is untracked and
/// whose valid UTF-8 path ends in a separator has a directory group of its
/// own, named after the path without its trailing separators.
pub proof fn law_untracked_directories_at_any_depth(
    cs: Seq<GitChangeView>,
    ls: Seq<ListingView>,
    out: Seq<GroupView>,
    i: int,
)
    requires
        is_stable_sort(out, unsorted_groups(cs, ls)),
        0 <= i < cs.len(),
        cs[i].change_type == ChangeType::Add,
        cs[i].status.worktree == StatusCode::Untracked,
        vstd::utf8::valid_utf8(cs[i].filename),
        cs[i].filename.len() > 0,
        cs[i].filename.last() == 47u8,
    ensures
        exists|k: int|
            0 <= k < out.len() && #[trigger] out[k] == (GroupView::Directory {
                path: as_path(cs[i].filename),
                change_type: ChangeType::Add,
                files: seq![change_file(cs[i])],
            }),
{
    law_untracked_directories_commit_as_one(cs, ls, out, i);
}

} // verus!
