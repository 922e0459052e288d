//! Paths read the way `std::path::Path` reads them on Unix: as a list of
//! components, with empty segments (from repeated or trailing separators)
//! and `.` segments dropped, except for a `.` that starts a relative path.
use vstd::prelude::*;

use crate::paths::{
    copy_bytes, dot_path, lemma_path_lt_irreflexive, lemma_path_lt_total, path_lt, prefix_bytes,
    slash,
};
use crate::status::byte_strings;

verus! {

/// The byte of `.`.
pub open spec fn dot() -> u8 {
    46u8
}

/// The path `..`.
pub open spec fn dot_dot() -> Seq<u8> {
    seq![46u8, 46u8]
}

/// The root component, written as a separator: no other component holds
/// one.
pub open spec fn root_component() -> Seq<u8> {
    seq![slash()]
}

/// The path starts at the root.
pub open spec fn has_root(p: Seq<u8>) -> bool {
    p.len() > 0 && p[0] == slash()
}

/// The path starts with a `.` component, which `Path` keeps, unlike a `.`
/// anywhere else.
pub open spec fn leading_cur_dir(p: Seq<u8>) -> bool {
    !has_root(p) && p.len() > 0 && p[0] == dot() && (p.len() == 1 || p[1] == slash())
}

/// Where the body of a path begins: after the root or the leading `.`.
pub open spec fn body_start(p: Seq<u8>) -> int {
    if has_root(p) || leading_cur_dir(p) {
        1
    } else {
        0
    }
}

/// The `/`-separated segments of a path, empty ones included: one more
/// than there are separators.
pub open spec fn segments(p: Seq<u8>) -> Seq<Seq<u8>>
    decreases p.len(),
{
    if p.len() == 0 {
        seq![Seq::<u8>::empty()]
    } else {
        let r = segments(p.drop_last());
        if p.last() == slash() {
            r.push(Seq::<u8>::empty())
        } else {
            r.update(r.len() - 1, r.last().push(p.last()))
        }
    }
}

/// A segment that names a component: neither empty nor `.`.
pub open spec fn is_kept_segment(s: Seq<u8>) -> bool {
    s.len() > 0 && s != dot_path()
}

/// The segments that name components, in order.
pub open spec fn kept_segments(segs: Seq<Seq<u8>>) -> Seq<Seq<u8>>
    decreases segs.len(),
{
    if segs.len() == 0 {
        Seq::empty()
    } else {
        let r = kept_segments(segs.drop_last());
        if is_kept_segment(segs.last()) {
            r.push(segs.last())
        } else {
            r
        }
    }
}

/// The components of a path, as `Path::components` yields them on Unix:
/// the root (written `/`) for an absolute path, `.` for a path that starts
/// with a `.` component, then every segment that is neither empty nor `.`.
pub open spec fn components(p: Seq<u8>) -> Seq<Seq<u8>> {
    if has_root(p) {
        seq![root_component()] + kept_segments(segments(p).drop_first())
    } else if leading_cur_dir(p) {
        seq![dot_path()] + kept_segments(segments(p).drop_first())
    } else {
        kept_segments(segments(p))
    }
}

/// The code of a component in a path key: a kind byte (0 the root, 1 `.`,
/// 2 `..`, 3 a name) followed, for a name, by its bytes.
pub open spec fn component_code(c: Seq<u8>) -> Seq<u8> {
    if c == root_component() {
        seq![0u8]
    } else if c == dot_path() {
        seq![1u8]
    } else if c == dot_dot() {
        seq![2u8]
    } else {
        seq![3u8] + c
    }
}

/// The codes of a list of components, separated by `/`.
pub open spec fn join_codes(cs: Seq<Seq<u8>>) -> Seq<u8>
    decreases cs.len(),
{
    if cs.len() == 0 {
        Seq::empty()
    } else if cs.len() == 1 {
        component_code(cs[0])
    } else {
        join_codes(cs.drop_last()) + seq![slash()] + component_code(cs.last())
    }
}

/// The key of a path: its components coded and joined. Two paths are equal
/// as `Path`s when their keys are equal, and `path_lt` on keys is the order
/// of `Path`s: component by component, the root before `.` before `..`
/// before names, names byte by byte.
pub open spec fn path_key(p: Seq<u8>) -> Seq<u8> {
    join_codes(components(p))
}

/// The key of `.`, the top of the working tree.
pub open spec fn dot_key() -> Seq<u8> {
    path_key(dot_path())
}

/// The path with the empty and `.` segments at the end of its body
/// removed, with their separators: what `Path::components().as_path()`
/// gives, given that the body begins at `s`.
pub open spec fn trim_tail(p: Seq<u8>, s: int) -> Seq<u8>
    decreases p.len(),
{
    if p.len() == 0 || p.len() <= s {
        p
    } else if p.last() == slash() {
        trim_tail(p.drop_last(), s)
    } else if p.last() == dot() && p.len() - 1 == s {
        p.drop_last()
    } else if p.last() == dot() && p.len() >= 2 && p[p.len() - 2] == slash() {
        trim_tail(p.subrange(0, p.len() - 2), s)
    } else {
        p
    }
}

/// `p` without the trailing segments that name no component:
/// `Path::components().as_path()`.
pub open spec fn as_path(p: Seq<u8>) -> Seq<u8> {
    trim_tail(p, body_start(p))
}

/// `p` without its last segment and the separator before it, the body
/// beginning at `s`.
pub open spec fn drop_last_segment(p: Seq<u8>, s: int) -> Seq<u8>
    decreases p.len(),
{
    if p.len() == 0 || p.len() <= s {
        p
    } else if p.last() == slash() {
        p.drop_last()
    } else {
        drop_last_segment(p.drop_last(), s)
    }
}

/// What `Path::parent` gives: the path without its last component (and
/// without what then trails it that names no component); `None` for the
/// empty path and the root.
pub open spec fn parent(p: Seq<u8>) -> Option<Seq<u8>> {
    let s = body_start(p);
    let t = trim_tail(p, s);
    if t.len() > s {
        Some(trim_tail(drop_last_segment(t, s), s))
    } else if leading_cur_dir(p) {
        Some(Seq::empty())
    } else {
        None
    }
}

/// The directory a changed file lies in: its parent, or `.` when it has no
/// parent or an empty one.
pub open spec fn bucket_dir(p: Seq<u8>) -> Seq<u8> {
    match parent(p) {
        Some(q) => if q.len() > 0 {
            q
        } else {
            dot_path()
        },
        None => dot_path(),
    }
}

/// The key of the directory a changed file lies in.
pub open spec fn dir_key(p: Seq<u8>) -> Seq<u8> {
    path_key(bucket_dir(p))
}

/// What `Path::file_name` gives: the last component when it is a name.
pub open spec fn file_name(p: Seq<u8>) -> Option<Seq<u8>> {
    let c = components(p);
    if c.len() > 0 && c.last() != root_component() && c.last() != dot_path() && c.last()
        != dot_dot() {
        Some(c.last())
    } else {
        None
    }
}

} // verus!

verus! {

proof fn lemma_segments_nonempty(p: Seq<u8>)
    ensures
        segments(p).len() >= 1,
    decreases p.len(),
{
    if p.len() > 0 {
        lemma_segments_nonempty(p.drop_last());
    }
}

/// The segments of a path.
fn split_segments(p: &[u8]) -> (r: Vec<Vec<u8>>)
    ensures
        byte_strings(r@) == segments(p@),
{
    let mut segs: Vec<Vec<u8>> = Vec::new();
    let mut cur: Vec<u8> = Vec::new();
    let mut i: usize = 0;
    assert(p@.subrange(0, 0) =~= Seq::<u8>::empty());
    assert(byte_strings(segs@).push(cur@) =~= segments(p@.subrange(0, 0)));
    while i < p.len()
        invariant
            i <= p@.len(),
            byte_strings(segs@).push(cur@) == segments(p@.subrange(0, i as int)),
        decreases p@.len() - i,
    {
        let ghost prev = p@.subrange(0, i as int);
        assert(p@.subrange(0, i + 1).drop_last() =~= prev);
        proof {
            lemma_segments_nonempty(prev);
        }
        if p[i] == 47u8 {
            segs.push(cur);
            cur = Vec::new();
            assert(byte_strings(segs@).push(cur@) =~= segments(p@.subrange(0, i + 1)));
        } else {
            cur.push(p[i]);
            assert(byte_strings(segs@).push(cur@) =~= segments(p@.subrange(0, i + 1)));
        }
        i = i + 1;
    }
    assert(p@.subrange(0, p@.len() as int) =~= p@);
    segs.push(cur);
    segs
}

/// Whether a segment names a component.
fn kept_segment(s: &[u8]) -> (r: bool)
    ensures
        r == is_kept_segment(s@),
{
    if s.len() == 0 {
        return false;
    }
    if s.len() == 1 && s[0] == 46u8 {
        assert(s@ =~= dot_path());
        return false;
    }
    assert(s@ != dot_path()) by {
        if s@ == dot_path() {
            assert(s@.len() == 1 && s@[0] == 46u8);
        }
    }
    true
}

/// Where the body of a path begins.
fn body_start_of(p: &[u8]) -> (s: usize)
    ensures
        s == body_start(p@),
{
    if p.len() > 0 && p[0] == 47u8 {
        1
    } else if p.len() > 0 && p[0] == 46u8 && (p.len() == 1 || p[1] == 47u8) {
        1
    } else {
        0
    }
}

/// The components of a path, as `Path::components` yields them.
pub fn path_components(p: &[u8]) -> (r: Vec<Vec<u8>>)
    ensures
        byte_strings(r@) == components(p@),
{
    let segs = split_segments(p);
    proof {
        lemma_segments_nonempty(p@);
    }
    let ghost ss = byte_strings(segs@);
    let mut r: Vec<Vec<u8>> = Vec::new();
    let first: usize;
    if p.len() > 0 && p[0] == 47u8 {
        let mut root: Vec<u8> = Vec::new();
        root.push(47u8);
        assert(root@ =~= root_component());
        r.push(root);
        first = 1;
    } else if p.len() > 0 && p[0] == 46u8 && (p.len() == 1 || p[1] == 47u8) {
        let mut cur: Vec<u8> = Vec::new();
        cur.push(46u8);
        assert(cur@ =~= dot_path());
        r.push(cur);
        first = 1;
    } else {
        first = 0;
    }
    let ghost head = byte_strings(r@);
    let ghost body = ss.skip(first as int);
    assert(first == 1 ==> body =~= ss.drop_first());
    assert(first == 0 ==> body =~= ss);
    let mut i: usize = first;
    assert(body.take(0) =~= Seq::<Seq<u8>>::empty());
    while i < segs.len()
        invariant
            ss == byte_strings(segs@),
            body == ss.skip(first as int),
            first <= i <= segs@.len(),
            first <= 1,
            1 <= segs@.len(),
            byte_strings(r@) == head + kept_segments(body.take(i - first)),
        decreases segs@.len() - i,
    {
        let ghost k = (i - first) as int;
        assert(body.take(k + 1).drop_last() =~= body.take(k));
        assert(body.take(k + 1).last() == segs@[i as int]@);
        if kept_segment(segs[i].as_slice()) {
            let ghost before = byte_strings(r@);
            let c = copy_bytes(segs[i].as_slice());
            r.push(c);
            assert(byte_strings(r@) =~= before.push(c@));
            assert(byte_strings(r@) =~= head + kept_segments(body.take(k + 1)));
        }
        i = i + 1;
    }
    assert(body.take(segs@.len() - first) =~= body);
    assert(head + kept_segments(body) =~= components(p@));
    r
}

} // verus!

verus! {

/// How many of the first `n` bytes of `p` remain once the trailing
/// segments of the body (from `s` on) that name no component are removed.
fn trim_tail_len(p: &[u8], n: usize, s: usize) -> (m: usize)
    requires
        n <= p@.len(),
    ensures
        m <= n,
        trim_tail(p@.subrange(0, n as int), s as int) == p@.subrange(0, m as int),
{
    let mut m = n;
    loop
        invariant
            m <= n <= p@.len(),
            trim_tail(p@.subrange(0, n as int), s as int) == trim_tail(
                p@.subrange(0, m as int),
                s as int,
            ),
        decreases m,
    {
        let ghost q = p@.subrange(0, m as int);
        if m == 0 || m <= s {
            return m;
        }
        if p[m - 1] == 47u8 {
            assert(q.drop_last() =~= p@.subrange(0, m - 1));
            m = m - 1;
        } else if p[m - 1] == 46u8 && m - 1 == s {
            assert(q.drop_last() =~= p@.subrange(0, m - 1));
            return m - 1;
        } else if p[m - 1] == 46u8 && m >= 2 && p[m - 2] == 47u8 {
            assert(q.subrange(0, q.len() - 2) =~= p@.subrange(0, m - 2));
            m = m - 2;
        } else {
            return m;
        }
    }
}

/// How many of the first `n` bytes of `p` remain once the last segment and
/// the separator before it are removed, the body beginning at `s`.
fn drop_last_segment_len(p: &[u8], n: usize, s: usize) -> (m: usize)
    requires
        n <= p@.len(),
    ensures
        m <= n,
        drop_last_segment(p@.subrange(0, n as int), s as int) == p@.subrange(0, m as int),
{
    let mut m = n;
    loop
        invariant
            m <= n <= p@.len(),
            drop_last_segment(p@.subrange(0, n as int), s as int) == drop_last_segment(
                p@.subrange(0, m as int),
                s as int,
            ),
        decreases m,
    {
        let ghost q = p@.subrange(0, m as int);
        if m == 0 || m <= s {
            return m;
        }
        assert(q.drop_last() =~= p@.subrange(0, m - 1));
        if p[m - 1] == 47u8 {
            return m - 1;
        }
        m = m - 1;
    }
}

/// `p` without the trailing segments that name no component:
/// `Path::components().as_path()`.
pub fn as_path_bytes(p: &[u8]) -> (r: Vec<u8>)
    ensures
        r@ == as_path(p@),
{
    let s = body_start_of(p);
    assert(p@.subrange(0, p@.len() as int) =~= p@);
    let m = trim_tail_len(p, p.len(), s);
    prefix_bytes(p, m)
}

/// What `Path::parent` gives.
pub fn parent_bytes(p: &[u8]) -> (r: Option<Vec<u8>>)
    ensures
        match parent(p@) {
            Some(q) => r matches Some(v) && v@ == q,
            None => r is None,
        },
{
    let s = body_start_of(p);
    assert(p@.subrange(0, p@.len() as int) =~= p@);
    let t = trim_tail_len(p, p.len(), s);
    if t > s {
        let d = drop_last_segment_len(p, t, s);
        let m = trim_tail_len(p, d, s);
        Some(prefix_bytes(p, m))
    } else if p.len() > 0 && p[0] == 46u8 && (p.len() == 1 || p[1] == 47u8) {
        Some(Vec::new())
    } else {
        None
    }
}

/// The directory a changed file lies in: its parent, or `.` when it has no
/// parent or an empty one.
pub fn bucket_dir_bytes(p: &[u8]) -> (r: Vec<u8>)
    ensures
        r@ == bucket_dir(p@),
{
    match parent_bytes(p) {
        Some(q) => {
            if q.len() > 0 {
                q
            } else {
                let mut r: Vec<u8> = Vec::new();
                r.push(46u8);
                assert(r@ =~= dot_path());
                r
            }
        },
        None => {
            let mut r: Vec<u8> = Vec::new();
            r.push(46u8);
            assert(r@ =~= dot_path());
            r
        },
    }
}

/// The code of one component.
fn code_of(c: &[u8]) -> (r: Vec<u8>)
    ensures
        r@ == component_code(c@),
{
    let mut r: Vec<u8> = Vec::new();
    if c.len() == 1 && c[0] == 47u8 {
        assert(c@ =~= root_component());
        r.push(0u8);
        assert(r@ =~= seq![0u8]);
        return r;
    }
    if c.len() == 1 && c[0] == 46u8 {
        assert(c@ =~= dot_path());
        assert(c@ != root_component());
        r.push(1u8);
        assert(r@ =~= seq![1u8]);
        return r;
    }
    if c.len() == 2 && c[0] == 46u8 && c[1] == 46u8 {
        assert(c@ =~= dot_dot());
        assert(c@ != root_component() && c@ != dot_path());
        r.push(2u8);
        assert(r@ =~= seq![2u8]);
        return r;
    }
    assert(c@ != root_component() && c@ != dot_path() && c@ != dot_dot()) by {
        if c@ == root_component() {
            assert(c@.len() == 1 && c@[0] == 47u8);
        }
        if c@ == dot_path() {
            assert(c@.len() == 1 && c@[0] == 46u8);
        }
        if c@ == dot_dot() {
            assert(c@.len() == 2 && c@[0] == 46u8 && c@[1] == 46u8);
        }
    }
    r.push(3u8);
    let mut i: usize = 0;
    while i < c.len()
        invariant
            i <= c@.len(),
            r@ == seq![3u8] + c@.subrange(0, i as int),
        decreases c@.len() - i,
    {
        r.push(c[i]);
        i = i + 1;
        assert(r@ =~= seq![3u8] + c@.subrange(0, i as int));
    }
    assert(c@.subrange(0, c@.len() as int) =~= c@);
    r
}

/// The key of a path: its components coded and joined.
pub fn path_key_bytes(p: &[u8]) -> (r: Vec<u8>)
    ensures
        r@ == path_key(p@),
{
    let cs = path_components(p);
    let ghost cv = byte_strings(cs@);
    let mut r: Vec<u8> = Vec::new();
    let mut i: usize = 0;
    assert(cv.take(0) =~= Seq::<Seq<u8>>::empty());
    while i < cs.len()
        invariant
            cv == byte_strings(cs@),
            i <= cs@.len(),
            r@ == join_codes(cv.take(i as int)),
        decreases cs@.len() - i,
    {
        assert(cv.take(i + 1).drop_last() =~= cv.take(i as int));
        assert(cv.take(i + 1).last() == cs@[i as int]@);
        if i > 0 {
            r.push(47u8);
        }
        let code = code_of(cs[i].as_slice());
        let ghost before = r@;
        let mut k: usize = 0;
        while k < code.len()
            invariant
                k <= code@.len(),
                r@ == before + code@.subrange(0, k as int),
            decreases code@.len() - k,
        {
            r.push(code[k]);
            k = k + 1;
            assert(r@ =~= before + code@.subrange(0, k as int));
        }
        assert(code@.subrange(0, code@.len() as int) =~= code@);
        proof {
            if i == 0 {
                assert(cv.take(1) =~= seq![cv[0]]);
                assert(r@ =~= join_codes(cv.take(1)));
            } else {
                assert(r@ =~= join_codes(cv.take(i + 1)));
            }
        }
        i = i + 1;
    }
    assert(cv.take(cs@.len() as int) =~= cv);
    r
}

/// The key of the directory a changed file lies in.
pub fn dir_key_bytes(p: &[u8]) -> (r: Vec<u8>)
    ensures
        r@ == dir_key(p@),
{
    let d = bucket_dir_bytes(p);
    path_key_bytes(d.as_slice())
}

/// What `Path::file_name` gives: the last component when it is a name.
pub fn file_name_bytes(p: &[u8]) -> (r: Option<Vec<u8>>)
    ensures
        match file_name(p@) {
            Some(n) => r matches Some(v) && v@ == n,
            None => r is None,
        },
{
    let mut cs = path_components(p);
    let ghost cv = byte_strings(cs@);
    if cs.len() == 0 {
        return None;
    }
    let last = cs.pop().unwrap();
    assert(last@ == cv.last());
    let is_root = last.len() == 1 && last[0] == 47u8;
    let is_dot = last.len() == 1 && last[0] == 46u8;
    let is_dot_dot = last.len() == 2 && last[0] == 46u8 && last[1] == 46u8;
    proof {
        if last@ == root_component() {
            assert(last@.len() == 1 && last@[0] == 47u8);
        }
        if last@ == dot_path() {
            assert(last@.len() == 1 && last@[0] == 46u8);
        }
        if last@ == dot_dot() {
            assert(last@.len() == 2 && last@[0] == 46u8 && last@[1] == 46u8);
        }
        if is_root {
            assert(last@ =~= root_component());
        }
        if is_dot {
            assert(last@ =~= dot_path());
        }
        if is_dot_dot {
            assert(last@ =~= dot_dot());
        }
    }
    if is_root || is_dot || is_dot_dot {
        None
    } else {
        Some(last)
    }
}

/// The key of `.` is the single byte 1.
pub proof fn lemma_dot_key()
    ensures
        dot_key() == seq![1u8],
{
    let p = dot_path();
    assert(leading_cur_dir(p));
    assert(p.drop_last() =~= Seq::<u8>::empty());
    let e = Seq::<u8>::empty();
    assert(segments(e) == seq![e]);
    assert(e.push(46u8) =~= seq![46u8]);
    assert(segments(p) =~= seq![e].update(0, e.push(46u8)));
    assert(segments(p) =~= seq![seq![46u8]]);
    assert(segments(p).drop_first() =~= Seq::<Seq<u8>>::empty());
    assert(components(p) =~= seq![dot_path()]);
}

} // verus!

verus! {

/// Byte-string order: lexicographic, a proper prefix first (the order of
/// `OsStr`).
pub open spec fn bytes_lt(a: Seq<u8>, b: Seq<u8>) -> bool
    decreases a.len(),
{
    if b.len() == 0 {
        false
    } else if a.len() == 0 {
        true
    } else if a[0] != b[0] {
        a[0] < b[0]
    } else {
        bytes_lt(a.drop_first(), b.drop_first())
    }
}

/// The kind of a component, in the order of `std::path::Component`'s
/// variants: 0 the root, 1 `.`, 2 `..`, 3 a name.
pub open spec fn component_kind(c: Seq<u8>) -> int {
    if c == root_component() {
        0
    } else if c == dot_path() {
        1
    } else if c == dot_dot() {
        2
    } else {
        3
    }
}

/// The order of components (`Component`'s derived order): by kind, names
/// byte by byte.
pub open spec fn component_lt(a: Seq<u8>, b: Seq<u8>) -> bool {
    component_kind(a) < component_kind(b) || (component_kind(a) == 3 && component_kind(b) == 3
        && bytes_lt(a, b))
}

/// The order of component lists, which is the order of `Path`s:
/// lexicographic, a proper prefix first.
pub open spec fn components_lt(a: Seq<Seq<u8>>, b: Seq<Seq<u8>>) -> bool
    decreases a.len(),
{
    if b.len() == 0 {
        false
    } else if a.len() == 0 {
        true
    } else if a[0] != b[0] {
        component_lt(a[0], b[0])
    } else {
        components_lt(a.drop_first(), b.drop_first())
    }
}

/// No byte of `s` is a separator.
pub open spec fn no_slash(s: Seq<u8>) -> bool {
    forall|i: int| 0 <= i < s.len() ==> s[i] != slash()
}

/// A component as `components` yields it: the root, `.`, or a name (not
/// empty, not `.`, without separators; `..` among them).
pub open spec fn well_formed_component(c: Seq<u8>) -> bool {
    c == root_component() || c == dot_path() || (is_kept_segment(c) && no_slash(c))
}

proof fn lemma_segments_no_slash(p: Seq<u8>)
    ensures
        forall|i: int| 0 <= i < segments(p).len() ==> no_slash(#[trigger] segments(p)[i]),
    decreases p.len(),
{
    if p.len() > 0 {
        lemma_segments_no_slash(p.drop_last());
        lemma_segments_nonempty(p.drop_last());
        let r = segments(p.drop_last());
        assert forall|i: int| 0 <= i < segments(p).len() implies no_slash(
            #[trigger] segments(p)[i],
        ) by {
            if p.last() != slash() && i == r.len() - 1 {
                let s = r.last().push(p.last());
                assert(segments(p)[i] == s);
                assert(no_slash(r[r.len() - 1]));
                assert forall|j: int| 0 <= j < s.len() implies s[j] != slash() by {
                    if j < s.len() - 1 {
                        assert(s[j] == r.last()[j]);
                    }
                }
            } else if i < r.len() {
                assert(segments(p)[i] == r[i]);
            }
        }
    }
}

proof fn lemma_kept_segments_well_formed(segs: Seq<Seq<u8>>)
    requires
        forall|i: int| 0 <= i < segs.len() ==> no_slash(#[trigger] segs[i]),
    ensures
        forall|i: int|
            0 <= i < kept_segments(segs).len() ==> well_formed_component(
                #[trigger] kept_segments(segs)[i],
            ),
    decreases segs.len(),
{
    if segs.len() > 0 {
        assert forall|i: int| 0 <= i < segs.drop_last().len() implies no_slash(
            #[trigger] segs.drop_last()[i],
        ) by {
            assert(segs.drop_last()[i] == segs[i]);
        }
        lemma_kept_segments_well_formed(segs.drop_last());
        let r = kept_segments(segs.drop_last());
        assert(no_slash(segs[segs.len() - 1]));
        assert forall|i: int| 0 <= i < kept_segments(segs).len() implies well_formed_component(
            #[trigger] kept_segments(segs)[i],
        ) by {
            if i < r.len() {
                assert(kept_segments(segs)[i] == r[i]);
            }
        }
    }
}

/// Every component of a path is well formed.
proof fn lemma_components_well_formed(p: Seq<u8>)
    ensures
        forall|i: int|
            0 <= i < components(p).len() ==> well_formed_component(#[trigger] components(p)[i]),
{
    lemma_segments_no_slash(p);
    lemma_segments_nonempty(p);
    let segs = segments(p);
    assert forall|i: int| 0 <= i < segs.drop_first().len() implies no_slash(
        #[trigger] segs.drop_first()[i],
    ) by {
        assert(segs.drop_first()[i] == segs[i + 1]);
    }
    lemma_kept_segments_well_formed(segs);
    lemma_kept_segments_well_formed(segs.drop_first());
    let c = components(p);
    assert forall|i: int| 0 <= i < c.len() implies well_formed_component(#[trigger] c[i]) by {
        if has_root(p) || leading_cur_dir(p) {
            if i > 0 {
                assert(c[i] == kept_segments(segs.drop_first())[i - 1]);
            }
        } else {
            assert(c[i] == kept_segments(segs)[i]);
        }
    }
}

/// Codes hold no separator and are not empty; each code is the code of one
/// component.
proof fn lemma_code(c: Seq<u8>, d: Seq<u8>)
    requires
        well_formed_component(c),
        well_formed_component(d),
    ensures
        component_code(c).len() > 0,
        no_slash(component_code(c)),
        component_code(c) == component_code(d) ==> c == d,
        c != d ==> path_lt(component_code(c), component_code(d)) == component_lt(c, d),
{
    let x = component_code(c);
    let y = component_code(d);
    if component_kind(c) == 3 {
        assert forall|i: int| 0 <= i < x.len() implies x[i] != slash() by {
            if i > 0 {
                assert(x[i] == c[i - 1]);
            }
        }
        assert(x.drop_first() =~= c);
    }
    if component_kind(d) == 3 {
        assert(y.drop_first() =~= d);
    }
    if x == y {
        assert(x[0] == y[0]);
        if component_kind(c) == 3 {
            assert(x[0] == 3u8);
            assert(component_kind(d) == 3);
            assert(c == x.drop_first());
            assert(d == y.drop_first());
        } else {
            assert(x.len() == 1);
            assert(component_kind(d) != 3) by {
                if component_kind(d) == 3 {
                    assert(y[0] == 3u8);
                }
            }
            assert(component_kind(c) == component_kind(d));
        }
    }
    if c != d && component_kind(c) == 3 && component_kind(d) == 3 {
        lemma_path_lt_bytes_lt(c, d);
    }
}

/// Without separators, the order of keys is byte order.
proof fn lemma_path_lt_bytes_lt(a: Seq<u8>, b: Seq<u8>)
    requires
        no_slash(a),
        no_slash(b),
    ensures
        path_lt(a, b) == bytes_lt(a, b),
    decreases a.len(),
{
    if a.len() > 0 && b.len() > 0 && a[0] == b[0] {
        assert(no_slash(a.drop_first()) && no_slash(b.drop_first())) by {
            assert forall|i: int| 0 <= i < a.drop_first().len() implies a.drop_first()[i]
                != slash() by {
                assert(a.drop_first()[i] == a[i + 1]);
            }
            assert forall|i: int| 0 <= i < b.drop_first().len() implies b.drop_first()[i]
                != slash() by {
                assert(b.drop_first()[i] == b[i + 1]);
            }
        }
        lemma_path_lt_bytes_lt(a.drop_first(), b.drop_first());
    }
}

/// A common front does not change the order.
proof fn lemma_path_lt_common_front(x: Seq<u8>, u: Seq<u8>, v: Seq<u8>)
    ensures
        path_lt(x + u, x + v) == path_lt(u, v),
    decreases x.len(),
{
    if x.len() > 0 {
        assert((x + u).drop_first() =~= x.drop_first() + u);
        assert((x + v).drop_first() =~= x.drop_first() + v);
        lemma_path_lt_common_front(x.drop_first(), u, v);
    } else {
        assert(x + u =~= u);
        assert(x + v =~= v);
    }
}

/// Two different codes decide the order whatever follows them, when what
/// follows is empty or starts with a separator.
proof fn lemma_path_lt_codes(x: Seq<u8>, y: Seq<u8>, u: Seq<u8>, v: Seq<u8>)
    requires
        no_slash(x),
        no_slash(y),
        x != y,
        u.len() == 0 || u[0] == slash(),
        v.len() == 0 || v[0] == slash(),
    ensures
        path_lt(x + u, y + v) == path_lt(x, y),
    decreases x.len(),
{
    if x.len() == 0 {
        assert(y.len() > 0) by {
            if y.len() == 0 {
                assert(x =~= y);
            }
        }
        assert(x + u =~= u);
        assert((y + v)[0] == y[0]);
        assert(y[0] != slash());
    } else if y.len() == 0 {
        assert(y + v =~= v);
        assert((x + u)[0] == x[0]);
        assert(x[0] != slash());
    } else {
        assert(x[0] != slash() && y[0] != slash());
        assert((x + u)[0] == x[0]);
        assert((y + v)[0] == y[0]);
        if x[0] == y[0] {
            assert((x + u).drop_first() =~= x.drop_first() + u);
            assert((y + v).drop_first() =~= y.drop_first() + v);
            assert(x.drop_first() != y.drop_first()) by {
                if x.drop_first() == y.drop_first() {
                    assert(x =~= seq![x[0]] + x.drop_first());
                    assert(y =~= seq![y[0]] + y.drop_first());
                }
            }
            assert(no_slash(x.drop_first()) && no_slash(y.drop_first())) by {
                assert forall|i: int| 0 <= i < x.drop_first().len() implies x.drop_first()[i]
                    != slash() by {
                    assert(x.drop_first()[i] == x[i + 1]);
                }
                assert forall|i: int| 0 <= i < y.drop_first().len() implies y.drop_first()[i]
                    != slash() by {
                    assert(y.drop_first()[i] == y[i + 1]);
                }
            }
            lemma_path_lt_codes(x.drop_first(), y.drop_first(), u, v);
        }
    }
}

/// What follows the first code in a joined list.
pub open spec fn join_rest(cs: Seq<Seq<u8>>) -> Seq<u8> {
    if cs.len() <= 1 {
        Seq::empty()
    } else {
        seq![slash()] + join_codes(cs.drop_first())
    }
}

/// A joined list is the code of its first component, then the rest.
proof fn lemma_join_front(cs: Seq<Seq<u8>>)
    requires
        cs.len() > 0,
    ensures
        join_codes(cs) == component_code(cs[0]) + join_rest(cs),
    decreases cs.len(),
{
    if cs.len() == 1 {
        assert(component_code(cs[0]) + Seq::<u8>::empty() =~= component_code(cs[0]));
    } else if cs.len() == 2 {
        assert(cs.drop_last() =~= seq![cs[0]]);
        assert(cs.drop_first() =~= seq![cs[1]]);
        assert(join_codes(cs.drop_last()) == component_code(cs[0]));
        assert(join_codes(cs.drop_first()) == component_code(cs[1]));
        assert(join_codes(cs) == join_codes(cs.drop_last()) + seq![slash()] + component_code(
            cs.last(),
        ));
        assert(join_codes(cs) =~= component_code(cs[0]) + join_rest(cs));
    } else {
        let init = cs.drop_last();
        let tail = cs.drop_first();
        lemma_join_front(init);
        assert(init[0] == cs[0]);
        assert(init.drop_first() =~= tail.drop_last());
        assert(tail.last() == cs.last());
        assert(join_codes(tail) == join_codes(tail.drop_last()) + seq![slash()] + component_code(
            tail.last(),
        ));
        assert(join_codes(cs) == join_codes(init) + seq![slash()] + component_code(cs.last()));
        assert(join_rest(init) == seq![slash()] + join_codes(init.drop_first()));
        assert(join_codes(cs) =~= component_code(cs[0]) + join_rest(cs));
    }
}

/// Keys of well-formed component lists are equal exactly when the lists
/// are, and ordered as the lists are.
proof fn lemma_join_order(a: Seq<Seq<u8>>, b: Seq<Seq<u8>>)
    requires
        forall|i: int| 0 <= i < a.len() ==> well_formed_component(#[trigger] a[i]),
        forall|i: int| 0 <= i < b.len() ==> well_formed_component(#[trigger] b[i]),
    ensures
        (join_codes(a) == join_codes(b)) == (a == b),
        path_lt(join_codes(a), join_codes(b)) == components_lt(a, b),
    decreases a.len(),
{
    if a.len() == 0 && b.len() == 0 {
        assert(a =~= b);
    } else if a.len() == 0 {
        lemma_join_front(b);
        lemma_code(b[0], b[0]);
        assert(join_codes(b).len() > 0);
    } else if b.len() == 0 {
        lemma_join_front(a);
        lemma_code(a[0], a[0]);
        assert(join_codes(a).len() > 0);
    } else {
        lemma_join_front(a);
        lemma_join_front(b);
        lemma_code(a[0], b[0]);
        lemma_code(b[0], a[0]);
        let x = component_code(a[0]);
        let y = component_code(b[0]);
        let u = join_rest(a);
        let v = join_rest(b);
        if a[0] == b[0] {
            lemma_path_lt_common_front(x, u, v);
            let a1 = a.drop_first();
            let b1 = b.drop_first();
            assert forall|i: int| 0 <= i < a1.len() implies well_formed_component(#[trigger] a1[i]) by {
                assert(a1[i] == a[i + 1]);
            }
            assert forall|i: int| 0 <= i < b1.len() implies well_formed_component(#[trigger] b1[i]) by {
                assert(b1[i] == b[i + 1]);
            }
            lemma_join_order(a1, b1);
            if a.len() > 1 && b.len() > 1 {
                lemma_path_lt_common_front(seq![slash()], join_codes(a1), join_codes(b1));
                if u == v {
                    assert(join_codes(a1) =~= u.drop_first());
                    assert(join_codes(b1) =~= v.drop_first());
                }
                assert(a =~= seq![a[0]] + a1);
                assert(b =~= seq![b[0]] + b1);
            } else if a.len() > 1 {
                assert(u.len() > 0);
                assert(b1.len() == 0);
                assert(a1.len() > 0);
            } else if b.len() > 1 {
                assert(v.len() > 0);
                assert(a1.len() == 0);
                assert(b1.len() > 0);
            } else {
                assert(a =~= b);
            }
            if x + u == x + v {
                assert(u =~= (x + u).skip(x.len() as int));
                assert(v =~= (x + v).skip(x.len() as int));
            }
        } else {
            assert(x != y);
            lemma_path_lt_codes(x, y, u, v);
            lemma_path_lt_codes(y, x, v, u);
            lemma_path_lt_total(x, y);
            if x + u == y + v {
                lemma_path_lt_irreflexive(x + u);
            }
        }
    }
}

/// Two paths are equal as `Path`s (they have the same components) exactly
/// when their keys are equal.
pub proof fn law_keys_identify_paths(a: Seq<u8>, b: Seq<u8>)
    ensures
        (path_key(a) == path_key(b)) == (components(a) == components(b)),
{
    lemma_components_well_formed(a);
    lemma_components_well_formed(b);
    lemma_join_order(components(a), components(b));
}

/// The order of keys is the order of `Path`s: component by component, a
/// proper prefix first, the root before `.` before `..` before names, and
/// names byte by byte.
pub proof fn law_keys_order_paths(a: Seq<u8>, b: Seq<u8>)
    ensures
        path_lt(path_key(a), path_key(b)) == components_lt(components(a), components(b)),
{
    lemma_components_well_formed(a);
    lemma_components_well_formed(b);
    lemma_join_order(components(a), components(b));
}

} // verus!

verus! {

/// The keys of a list of paths.
pub open spec fn path_keys(ps: Seq<Seq<u8>>) -> Seq<Seq<u8>> {
    ps.map_values(|p: Seq<u8>| path_key(p))
}

/// The keys of a list of paths, in order.
pub fn keys_of(paths: &Vec<Vec<u8>>) -> (r: Vec<Vec<u8>>)
    ensures
        byte_strings(r@) == path_keys(byte_strings(paths@)),
{
    let mut r: Vec<Vec<u8>> = Vec::new();
    let mut i: usize = 0;
    while i < paths.len()
        invariant
            i <= paths@.len(),
            r@.len() == i,
            forall|j: int| 0 <= j < i ==> (#[trigger] r@[j])@ == path_key(paths@[j]@),
        decreases paths@.len() - i,
    {
        r.push(path_key_bytes(paths[i].as_slice()));
        i = i + 1;
    }
    assert(byte_strings(r@) =~= path_keys(byte_strings(paths@)));
    r
}

} // verus!

