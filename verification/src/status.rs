//! Reading `git status --porcelain=v1 -z` and `git ls-files -u -z` output
//! and choosing the paths that may be committed.
use vstd::prelude::*;

use crate::error::GitChaiError;
use crate::components::{
    components, keys_of, law_keys_identify_paths, path_key, path_key_bytes, path_keys,
};
use crate::paths::{bytes_eq, copy_bytes, prefix_bytes, suffix_bytes};
use crate::types::{
    change_type_of, parse_result_matches, parse_status_spec, ChangeType, GitStatus, StatusCode,
};

verus! {

/// The values of a list of byte strings.
pub open spec fn byte_strings(v: Seq<Vec<u8>>) -> Seq<Seq<u8>> {
    v.map_values(|x: Vec<u8>| x@)
}

/// The value of an optional byte string.
pub open spec fn opt_bytes(o: Option<Vec<u8>>) -> Option<Seq<u8>> {
    match o {
        Some(v) => Some(v@),
        None => None,
    }
}

/// The fields of `data` separated by NUL bytes, as `[u8]::split` yields
/// them: one more field than there are NUL bytes, empty ones included.
pub open spec fn split_fields(data: Seq<u8>) -> Seq<Seq<u8>>
    decreases data.len(),
{
    if data.len() == 0 {
        seq![Seq::<u8>::empty()]
    } else {
        let r = split_fields(data.drop_last());
        if data.last() == 0 {
            r.push(Seq::<u8>::empty())
        } else {
            r.update(r.len() - 1, r.last().push(data.last()))
        }
    }
}

/// There is always at least one field.
pub proof fn lemma_split_fields_nonempty(data: Seq<u8>)
    ensures
        split_fields(data).len() >= 1,
    decreases data.len(),
{
    if data.len() > 0 {
        lemma_split_fields_nonempty(data.drop_last());
    }
}

/// Split `data` at its NUL bytes.
pub fn split_nul_fields(data: &[u8]) -> (r: Vec<Vec<u8>>)
    ensures
        byte_strings(r@) == split_fields(data@),
{
    let mut fields: Vec<Vec<u8>> = Vec::new();
    let mut cur: Vec<u8> = Vec::new();
    let mut i: usize = 0;
    assert(data@.subrange(0, 0) =~= Seq::<u8>::empty());
    assert(byte_strings(fields@).push(cur@) =~= split_fields(data@.subrange(0, 0)));
    while i < data.len()
        invariant
            i <= data@.len(),
            byte_strings(fields@).push(cur@) == split_fields(data@.subrange(0, i as int)),
        decreases data@.len() - i,
    {
        let ghost prev = data@.subrange(0, i as int);
        assert(data@.subrange(0, i + 1).drop_last() =~= prev);
        proof {
            lemma_split_fields_nonempty(prev);
        }
        if data[i] == 0 {
            fields.push(cur);
            cur = Vec::new();
            assert(byte_strings(fields@).push(cur@) =~= split_fields(data@.subrange(0, i + 1)));
        } else {
            cur.push(data[i]);
            assert(byte_strings(fields@).push(cur@) =~= split_fields(data@.subrange(0, i + 1)));
        }
        i = i + 1;
    }
    assert(data@.subrange(0, data@.len() as int) =~= data@);
    fields.push(cur);
    fields
}

/// A parsed porcelain record, before classification into a change type.
#[derive(Debug, Clone)]
pub struct RawChange {
    pub status: GitStatus,
    pub filename: Vec<u8>,
    pub old_filename: Option<Vec<u8>>,
}

/// The value of a porcelain record.
pub struct RawChangeView {
    pub status: GitStatus,
    pub filename: Seq<u8>,
    pub old_filename: Option<Seq<u8>>,
}

impl View for RawChange {
    type V = RawChangeView;

    open spec fn view(&self) -> RawChangeView {
        RawChangeView {
            status: self.status,
            filename: self.filename@,
            old_filename: opt_bytes(self.old_filename),
        }
    }
}

/// The values of a list of records.
pub open spec fn raw_views(v: Seq<RawChange>) -> Seq<RawChangeView> {
    v.map_values(|x: RawChange| x@)
}

/// The status of a record carries a second field with the source path.
pub open spec fn has_source_field(status: GitStatus) -> bool {
    status.index == StatusCode::Renamed || status.index == StatusCode::Copied
}

/// `r` with `e` in front when `r` is a success.
pub open spec fn prepend_records(
    e: Seq<RawChangeView>,
    r: Result<Seq<RawChangeView>, Seq<char>>,
) -> Result<Seq<RawChangeView>, Seq<char>> {
    match r {
        Ok(rest) => Ok(e + rest),
        Err(m) => Err(m),
    }
}

/// The records in a list of porcelain fields. A field shorter than three
/// bytes (the empty field after the last NUL, or garbage) is passed over.
/// Otherwise the first two bytes are the status pair and the bytes from the
/// fourth on are the path; a rename or copy takes the next field, when there
/// is one, as its source path. A record with an empty path is dropped. The
/// first status pair that does not parse fails the whole list.
pub open spec fn parse_fields(fields: Seq<Seq<u8>>) -> Result<Seq<RawChangeView>, Seq<char>>
    decreases fields.len(),
{
    if fields.len() == 0 {
        Ok(Seq::empty())
    } else {
        let f = fields[0];
        if f.len() < 3 {
            parse_fields(fields.drop_first())
        } else {
            match parse_status_spec(f.subrange(0, 2)) {
                Err(m) => Err(m),
                Ok(status) => {
                    let name = f.subrange(3, f.len() as int);
                    let two = has_source_field(status) && fields.len() >= 2;
                    let old = if two {
                        Some(fields[1])
                    } else {
                        None
                    };
                    let rest = if two {
                        parse_fields(fields.skip(2))
                    } else {
                        parse_fields(fields.drop_first())
                    };
                    if name.len() == 0 {
                        rest
                    } else {
                        prepend_records(
                            seq![RawChangeView { status, filename: name, old_filename: old }],
                            rest,
                        )
                    }
                },
            }
        }
    }
}

/// What parsing porcelain output gives.
pub open spec fn porcelain_records(data: Seq<u8>) -> Result<Seq<RawChangeView>, Seq<char>> {
    parse_fields(split_fields(data))
}

/// Parse `git status --porcelain=v1 -z` output. Records are NUL-separated;
/// renames and copies carry a second NUL-terminated field holding the
/// source path.
pub fn parse_porcelain(data: &[u8]) -> (r: Result<Vec<RawChange>, GitChaiError>)
    ensures
        match porcelain_records(data@) {
            Ok(es) => r matches Ok(v) && raw_views(v@) == es,
            Err(m) => r matches Err(GitChaiError::ParseError(msg)) && msg@ == m,
        },
{
    let fields = split_nul_fields(data);
    let ghost fs = byte_strings(fields@);
    let mut changes: Vec<RawChange> = Vec::new();
    let mut i: usize = 0;
    assert(fs.skip(0) =~= fs);
    while i < fields.len()
        invariant
            fs == byte_strings(fields@),
            fs == split_fields(data@),
            i <= fields@.len(),
            parse_fields(fs) == prepend_records(raw_views(changes@), parse_fields(fs.skip(i as int))),
        decreases fields@.len() - i,
    {
        let ghost rest = fs.skip(i as int);
        assert(rest[0] == fields@[i as int]@);
        assert(rest.drop_first() =~= fs.skip(i + 1));
        let field = &fields[i];
        if field.len() < 3 {
            i = i + 1;
        } else {
            let xy = prefix_bytes(field.as_slice(), 2);
            assert(xy@ =~= rest[0].subrange(0, 2));
            let status = match GitStatus::parse(xy.as_slice()) {
                Ok(s) => s,
                Err(e) => {
                    proof {
                        let m = parse_status_spec(xy@)->Err_0;
                        assert(parse_status_spec(xy@) is Err);
                        assert(parse_fields(rest) == Err::<Seq<RawChangeView>, Seq<char>>(m));
                        assert(parse_fields(fs) == Err::<Seq<RawChangeView>, Seq<char>>(m));
                    }
                    return Err(e);
                },
            };
            let filename = suffix_bytes(field.as_slice(), 3);
            let two = (status.index == StatusCode::Renamed || status.index == StatusCode::Copied)
                && i + 1 < fields.len();
            let old_filename = if two {
                assert(rest[1] == fields@[i + 1]@);
                Some(copy_bytes(fields[i + 1].as_slice()))
            } else {
                None
            };
            proof {
                if two {
                    assert(rest.skip(2) =~= fs.skip(i + 2));
                }
            }
            i = if two { i + 2 } else { i + 1 };
            if filename.len() > 0 {
                let ghost before = raw_views(changes@);
                let rc = RawChange { status, filename, old_filename };
                changes.push(rc);
                assert(raw_views(changes@) =~= before + seq![rc@]);
                proof {
                    match parse_fields(fs.skip(i as int)) {
                        Ok(t) => {
                            assert(before + (seq![rc@] + t) =~= (before + seq![rc@]) + t);
                        },
                        Err(_) => {},
                    }
                }
            }
        }
    }
    proof {
        assert(fs.skip(i as int) =~= Seq::<Seq<u8>>::empty());
        assert(raw_views(changes@) + Seq::<RawChangeView>::empty() =~= raw_views(changes@));
    }
    Ok(changes)
}

} // verus!

verus! {

/// The index of the first byte `b` in `f`, or -1.
pub open spec fn first_index_of(f: Seq<u8>, b: u8) -> int
    decreases f.len(),
{
    if f.len() == 0 {
        -1
    } else if f[0] == b {
        0
    } else {
        let r = first_index_of(f.drop_first(), b);
        if r < 0 {
            -1
        } else {
            r + 1
        }
    }
}

/// The path of an `ls-files -u` record `<mode> <sha> <stage>\t<path>`: what
/// follows the first tab, when there is a tab and the path is not empty.
pub open spec fn unmerged_record_path(f: Seq<u8>) -> Option<Seq<u8>> {
    let t = first_index_of(f, 9u8);
    if t < 0 {
        None
    } else {
        let p = f.subrange(t + 1, f.len() as int);
        if p.len() == 0 {
            None
        } else {
            Some(p)
        }
    }
}

/// The paths of the records among `fields`, in order.
pub open spec fn unmerged_record_paths(fields: Seq<Seq<u8>>) -> Seq<Seq<u8>>
    decreases fields.len(),
{
    if fields.len() == 0 {
        Seq::empty()
    } else {
        let r = unmerged_record_paths(fields.drop_last());
        match unmerged_record_path(fields.last()) {
            Some(p) => r.push(p),
            None => r,
        }
    }
}

/// The paths that `git ls-files -u -z` output names.
pub open spec fn unmerged_output_paths(data: Seq<u8>) -> Seq<Seq<u8>> {
    unmerged_record_paths(split_fields(data))
}

proof fn lemma_first_index_of(f: Seq<u8>, b: u8)
    ensures
        -1 <= first_index_of(f, b) < f.len(),
        first_index_of(f, b) >= 0 ==> f[first_index_of(f, b)] == b,
        forall|j: int| 0 <= j < f.len() && (first_index_of(f, b) < 0 || j < first_index_of(f, b))
            ==> f[j] != b,
    decreases f.len(),
{
    if f.len() > 0 {
        lemma_first_index_of(f.drop_first(), b);
        assert forall|j: int|
            0 <= j < f.len() && (first_index_of(f, b) < 0 || j < first_index_of(f, b)) implies f[j]
            != b by {
            if j > 0 {
                assert(f[j] == f.drop_first()[j - 1]);
            }
        }
    }
}

/// The path of one `ls-files -u` record.
fn unmerged_path_of(f: &[u8]) -> (r: Option<Vec<u8>>)
    ensures
        match unmerged_record_path(f@) {
            Some(p) => r matches Some(v) && v@ == p,
            None => r is None,
        },
{
    proof {
        lemma_first_index_of(f@, 9u8);
    }
    let mut t: usize = 0;
    while t < f.len() && f[t] != 9u8
        invariant
            t <= f@.len(),
            forall|j: int| 0 <= j < t ==> f@[j] != 9u8,
        decreases f@.len() - t,
    {
        t = t + 1;
    }
    if t == f.len() {
        assert(first_index_of(f@, 9u8) < 0) by {
            if first_index_of(f@, 9u8) >= 0 {
                assert(f@[first_index_of(f@, 9u8)] == 9u8);
            }
        }
        return None;
    }
    assert(first_index_of(f@, 9u8) == t) by {
        if first_index_of(f@, 9u8) < 0 || first_index_of(f@, 9u8) > t {
            assert(f@[t as int] != 9u8);
        }
    }
    let p = suffix_bytes(f, t + 1);
    if p.len() == 0 {
        None
    } else {
        Some(p)
    }
}

/// Paths with unmerged index entries (stage 1-3), read from
/// `git ls-files -u -z` output. These are conflict states and must never be
/// auto-committed.
pub fn unmerged_paths(data: &[u8]) -> (r: Vec<Vec<u8>>)
    ensures
        byte_strings(r@) == unmerged_output_paths(data@),
{
    let fields = split_nul_fields(data);
    let ghost fs = byte_strings(fields@);
    let mut paths: Vec<Vec<u8>> = Vec::new();
    let mut i: usize = 0;
    assert(fs.take(0) =~= Seq::<Seq<u8>>::empty());
    while i < fields.len()
        invariant
            fs == byte_strings(fields@),
            i <= fields@.len(),
            byte_strings(paths@) == unmerged_record_paths(fs.take(i as int)),
        decreases fields@.len() - i,
    {
        assert(fs.take(i + 1).drop_last() =~= fs.take(i as int));
        assert(fs.take(i + 1).last() == fields@[i as int]@);
        match unmerged_path_of(fields[i].as_slice()) {
            Some(p) => {
                paths.push(p);
                assert(byte_strings(paths@) =~= unmerged_record_paths(fs.take(i + 1)));
            },
            None => {},
        }
        i = i + 1;
    }
    assert(fs.take(fields@.len() as int) =~= fs);
    paths
}

/// One changed path with enough information to stage and describe it.
#[derive(Debug, Clone)]
pub struct GitChange {
    pub status: GitStatus,
    pub change_type: ChangeType,
    /// The path to stage: for renames and copies this is the destination.
    pub filename: Vec<u8>,
    /// For renames and copies: the source path.
    pub old_filename: Option<Vec<u8>>,
}

/// The value of a change.
pub struct GitChangeView {
    pub status: GitStatus,
    pub change_type: ChangeType,
    pub filename: Seq<u8>,
    pub old_filename: Option<Seq<u8>>,
}

impl View for GitChange {
    type V = GitChangeView;

    open spec fn view(&self) -> GitChangeView {
        GitChangeView {
            status: self.status,
            change_type: self.change_type,
            filename: self.filename@,
            old_filename: opt_bytes(self.old_filename),
        }
    }
}

/// The values of a list of changes.
pub open spec fn change_views(v: Seq<GitChange>) -> Seq<GitChangeView> {
    v.map_values(|x: GitChange| x@)
}

/// A record is in a conflict state: its path has unmerged index entries
/// (it is, as a `Path`, one of the `unmerged` paths), or one side of its
/// status is unmerged.
pub open spec fn is_unmerged_record(e: RawChangeView, unmerged: Seq<Seq<u8>>) -> bool {
    path_keys(unmerged).contains(path_key(e.filename)) || e.status.index == StatusCode::Unmerged
        || e.status.worktree == StatusCode::Unmerged
}

/// The changes to commit among the records: those not in a conflict state
/// whose status has a change type, in order.
pub open spec fn committable_changes(es: Seq<RawChangeView>, unmerged: Seq<Seq<u8>>) -> Seq<
    GitChangeView,
>
    decreases es.len(),
{
    if es.len() == 0 {
        Seq::empty()
    } else {
        let r = committable_changes(es.drop_last(), unmerged);
        let e = es.last();
        if !is_unmerged_record(e, unmerged) && change_type_of(e.status) is Some {
            r.push(
                GitChangeView {
                    status: e.status,
                    change_type: change_type_of(e.status)->0,
                    filename: e.filename,
                    old_filename: e.old_filename,
                },
            )
        } else {
            r
        }
    }
}

/// The paths of the records passed over as conflicts, in order.
pub open spec fn conflicted_paths(es: Seq<RawChangeView>, unmerged: Seq<Seq<u8>>) -> Seq<Seq<u8>>
    decreases es.len(),
{
    if es.len() == 0 {
        Seq::empty()
    } else {
        let r = conflicted_paths(es.drop_last(), unmerged);
        if is_unmerged_record(es.last(), unmerged) {
            r.push(es.last().filename)
        } else {
            r
        }
    }
}

/// The paths of the records passed over because their status has no change
/// type (ignored paths), in order.
pub open spec fn ignored_paths(es: Seq<RawChangeView>, unmerged: Seq<Seq<u8>>) -> Seq<Seq<u8>>
    decreases es.len(),
{
    if es.len() == 0 {
        Seq::empty()
    } else {
        let r = ignored_paths(es.drop_last(), unmerged);
        let e = es.last();
        if !is_unmerged_record(e, unmerged) && change_type_of(e.status) is None {
            r.push(e.filename)
        } else {
            r
        }
    }
}

/// What a scan of the working tree found: the changes to commit and the
/// paths passed over.
pub struct ChangeScan {
    pub changes: Vec<GitChange>,
    /// Paths in a conflict state, never committed.
    pub unmerged: Vec<Vec<u8>>,
    /// Paths whose status has no change type.
    pub ignored: Vec<Vec<u8>>,
}

/// Whether the byte string `p` is among `list`.
pub fn contains_bytes(list: &Vec<Vec<u8>>, p: &[u8]) -> (r: bool)
    ensures
        r == byte_strings(list@).contains(p@),
{
    let mut i: usize = 0;
    while i < list.len()
        invariant
            i <= list@.len(),
            forall|j: int| 0 <= j < i ==> list@[j]@ != p@,
        decreases list@.len() - i,
    {
        if bytes_eq(list[i].as_slice(), p) {
            assert(byte_strings(list@)[i as int] == p@);
            return true;
        }
        i = i + 1;
    }
    assert(!byte_strings(list@).contains(p@)) by {
        if byte_strings(list@).contains(p@) {
            let j = choose|j: int| 0 <= j < list@.len() && byte_strings(list@)[j] == p@;
            assert(list@[j]@ == p@);
        }
    }
    false
}

/// Sort the porcelain status output of the working tree into the changes to
/// commit and the paths to pass over, given the `git ls-files -u -z` output
/// that names the paths with unmerged index entries.
pub fn scan_changes(status_output: &[u8], unmerged_output: &[u8]) -> (r: Result<
    ChangeScan,
    GitChaiError,
>)
    ensures
        match porcelain_records(status_output@) {
            Ok(es) => r matches Ok(scan) && {
                let um = unmerged_output_paths(unmerged_output@);
                &&& change_views(scan.changes@) == committable_changes(es, um)
                &&& byte_strings(scan.unmerged@) == conflicted_paths(es, um)
                &&& byte_strings(scan.ignored@) == ignored_paths(es, um)
            },
            Err(m) => r matches Err(GitChaiError::ParseError(msg)) && msg@ == m,
        },
{
    let records = match parse_porcelain(status_output) {
        Ok(v) => v,
        Err(e) => {
            return Err(e);
        },
    };
    let unmerged = unmerged_paths(unmerged_output);
    let ghost es = raw_views(records@);
    let ghost um = byte_strings(unmerged@);
    let unmerged_keys = keys_of(&unmerged);
    let mut changes: Vec<GitChange> = Vec::new();
    let mut skipped: Vec<Vec<u8>> = Vec::new();
    let mut ignored: Vec<Vec<u8>> = Vec::new();
    let mut i: usize = 0;
    assert(es.take(0) =~= Seq::<RawChangeView>::empty());
    while i < records.len()
        invariant
            es == raw_views(records@),
            um == byte_strings(unmerged@),
            byte_strings(unmerged_keys@) == path_keys(um),
            i <= records@.len(),
            change_views(changes@) == committable_changes(es.take(i as int), um),
            byte_strings(skipped@) == conflicted_paths(es.take(i as int), um),
            byte_strings(ignored@) == ignored_paths(es.take(i as int), um),
        decreases records@.len() - i,
    {
        assert(es.take(i + 1).drop_last() =~= es.take(i as int));
        assert(es.take(i + 1).last() == records@[i as int]@);
        let rec = &records[i];
        let key = path_key_bytes(rec.filename.as_slice());
        let conflicted = contains_bytes(&unmerged_keys, key.as_slice())
            || rec.status.index == StatusCode::Unmerged
            || rec.status.worktree == StatusCode::Unmerged;
        if conflicted {
            skipped.push(copy_bytes(rec.filename.as_slice()));
            assert(byte_strings(skipped@) =~= conflicted_paths(es.take(i + 1), um));
            assert(change_views(changes@) =~= committable_changes(es.take(i + 1), um));
            assert(byte_strings(ignored@) =~= ignored_paths(es.take(i + 1), um));
        } else {
            match ChangeType::from_status(&rec.status) {
                Some(change_type) => {
                    let old_filename = match &rec.old_filename {
                        Some(o) => Some(copy_bytes(o.as_slice())),
                        None => None,
                    };
                    let c = GitChange {
                        status: rec.status,
                        change_type,
                        filename: copy_bytes(rec.filename.as_slice()),
                        old_filename,
                    };
                    proof {
                        assert(rec.filename@.subrange(0, rec.filename@.len() as int) =~= rec.filename@);
                        match &rec.old_filename {
                            Some(o) => {
                                assert(o@.subrange(0, o@.len() as int) =~= o@);
                            },
                            None => {},
                        }
                    }
                    changes.push(c);
                    assert(change_views(changes@) =~= committable_changes(es.take(i + 1), um));
                },
                None => {
                    ignored.push(copy_bytes(rec.filename.as_slice()));
                    assert(byte_strings(ignored@) =~= ignored_paths(es.take(i + 1), um));
                },
            }
            assert(byte_strings(skipped@) =~= conflicted_paths(es.take(i + 1), um));
        }
        i = i + 1;
    }
    assert(es.take(records@.len() as int) =~= es);
    Ok(ChangeScan { changes, unmerged: skipped, ignored })
}

} // verus!

verus! {

proof fn lemma_committable_not_conflicted(es: Seq<RawChangeView>, unmerged: Seq<Seq<u8>>)
    ensures
        forall|k: int|
            0 <= k < committable_changes(es, unmerged).len() ==> {
                let c = #[trigger] committable_changes(es, unmerged)[k];
                &&& !path_keys(unmerged).contains(path_key(c.filename))
                &&& c.status.index != StatusCode::Unmerged
                &&& c.status.worktree != StatusCode::Unmerged
                &&& change_type_of(c.status) == Some(c.change_type)
            },
    decreases es.len(),
{
    if es.len() > 0 {
        lemma_committable_not_conflicted(es.drop_last(), unmerged);
        let r = committable_changes(es.drop_last(), unmerged);
        assert forall|k: int| 0 <= k < committable_changes(es, unmerged).len() implies {
            let c = #[trigger] committable_changes(es, unmerged)[k];
            &&& !path_keys(unmerged).contains(path_key(c.filename))
            &&& c.status.index != StatusCode::Unmerged
            &&& c.status.worktree != StatusCode::Unmerged
            &&& change_type_of(c.status) == Some(c.change_type)
        } by {
            if k < r.len() {
                assert(committable_changes(es, unmerged)[k] == r[k]);
            }
        }
    }
}

/// No change chosen for committing is in a conflict state or without a
/// change type: its path is, as a `Path`, none of the paths with unmerged
/// index entries, neither side of its status is unmerged, and its change
/// type is the one its status gives.
pub proof fn law_conflicts_are_never_committed(
    es: Seq<RawChangeView>,
    unmerged: Seq<Seq<u8>>,
    k: int,
)
    requires
        0 <= k < committable_changes(es, unmerged).len(),
    ensures
        ({
            let c = committable_changes(es, unmerged)[k];
            &&& forall|j: int|
                0 <= j < unmerged.len() ==> components(#[trigger] unmerged[j]) != components(
                    c.filename,
                )
            &&& c.status.index != StatusCode::Unmerged
            &&& c.status.worktree != StatusCode::Unmerged
            &&& change_type_of(c.status) == Some(c.change_type)
        }),
{
    lemma_committable_not_conflicted(es, unmerged);
    let c = committable_changes(es, unmerged)[k];
    assert forall|j: int| 0 <= j < unmerged.len() implies components(#[trigger] unmerged[j])
        != components(c.filename) by {
        law_keys_identify_paths(unmerged[j], c.filename);
        assert(path_keys(unmerged)[j] == path_key(unmerged[j]));
    }
}

/// Every record is accounted for exactly once: it is committed, passed over
/// as a conflict, or passed over as ignored.
pub proof fn law_every_record_is_accounted_for(es: Seq<RawChangeView>, unmerged: Seq<Seq<u8>>)
    ensures
        committable_changes(es, unmerged).len() + conflicted_paths(es, unmerged).len()
            + ignored_paths(es, unmerged).len() == es.len(),
    decreases es.len(),
{
    if es.len() > 0 {
        law_every_record_is_accounted_for(es.drop_last(), unmerged);
    }
}

} // verus!
