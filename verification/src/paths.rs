//! Byte-string helpers for paths, the order of path keys, pathspecs and
//! joining paths.
use vstd::prelude::*;

verus! {

/// The byte of the path separator, `/`.
pub open spec fn slash() -> u8 {
    47u8
}

/// The path `.`, the top of the working tree.
pub open spec fn dot_path() -> Seq<u8> {
    seq![46u8]
}

/// The path ends with a separator, as git writes untracked directories.
pub open spec fn ends_with_slash(p: Seq<u8>) -> bool {
    p.len() > 0 && p.last() == slash()
}

/// The rank of a byte in the order of path keys: the separator comes
/// before every other byte, so that keys compare component by component.
pub open spec fn byte_rank(b: u8) -> int {
    if b == slash() {
        -1
    } else {
        b as int
    }
}

/// The order of path keys (see `components::path_key`): lexicographic on
/// byte ranks, a proper prefix first.
pub open spec fn path_lt(a: Seq<u8>, b: Seq<u8>) -> bool
    decreases a.len(),
{
    if b.len() == 0 {
        false
    } else if a.len() == 0 {
        true
    } else if a[0] != b[0] {
        byte_rank(a[0]) < byte_rank(b[0])
    } else {
        path_lt(a.drop_first(), b.drop_first())
    }
}

/// `a` comes before `b` or is `b`.
pub open spec fn path_le(a: Seq<u8>, b: Seq<u8>) -> bool {
    path_lt(a, b) || a == b
}

/// Path order is irreflexive.
pub proof fn lemma_path_lt_irreflexive(a: Seq<u8>)
    ensures
        !path_lt(a, a),
    decreases a.len(),
{
    if a.len() > 0 {
        lemma_path_lt_irreflexive(a.drop_first());
    }
}

/// Path order is transitive.
pub proof fn lemma_path_lt_transitive(a: Seq<u8>, b: Seq<u8>, c: Seq<u8>)
    requires
        path_lt(a, b),
        path_lt(b, c),
    ensures
        path_lt(a, c),
    decreases a.len(),
{
    if a.len() > 0 && b.len() > 0 && c.len() > 0 && a[0] == b[0] && b[0] == c[0] {
        lemma_path_lt_transitive(a.drop_first(), b.drop_first(), c.drop_first());
    }
}

/// Any two different paths are ordered one way or the other.
pub proof fn lemma_path_lt_total(a: Seq<u8>, b: Seq<u8>)
    ensures
        a == b || path_lt(a, b) || path_lt(b, a),
    decreases a.len(),
{
    if a.len() > 0 && b.len() > 0 && a[0] == b[0] {
        lemma_path_lt_total(a.drop_first(), b.drop_first());
        if a.drop_first() == b.drop_first() {
            assert(a =~= seq![a[0]] + a.drop_first());
            assert(b =~= seq![b[0]] + b.drop_first());
        }
    } else if a.len() == 0 && b.len() == 0 {
        assert(a =~= b);
    }
}

/// Path order is asymmetric.
pub proof fn lemma_path_lt_asymmetric(a: Seq<u8>, b: Seq<u8>)
    requires
        path_lt(a, b),
    ensures
        !path_lt(b, a),
{
    if path_lt(b, a) {
        lemma_path_lt_transitive(a, b, a);
        lemma_path_lt_irreflexive(a);
    }
}

/// Whether two byte strings are equal.
pub fn bytes_eq(a: &[u8], b: &[u8]) -> (r: bool)
    ensures
        r == (a@ == b@),
{
    if a.len() != b.len() {
        return false;
    }
    let mut i: usize = 0;
    while i < a.len()
        invariant
            a@.len() == b@.len(),
            i <= a@.len(),
            forall|j: int| 0 <= j < i ==> a@[j] == b@[j],
        decreases a@.len() - i,
    {
        if a[i] != b[i] {
            return false;
        }
        i = i + 1;
    }
    assert(a@ =~= b@);
    true
}

/// A copy of a byte string.
pub fn copy_bytes(a: &[u8]) -> (r: Vec<u8>)
    ensures
        r@ == a@,
{
    let mut r: Vec<u8> = Vec::new();
    let mut i: usize = 0;
    while i < a.len()
        invariant
            i <= a@.len(),
            r@ == a@.subrange(0, i as int),
        decreases a@.len() - i,
    {
        r.push(a[i]);
        i = i + 1;
        assert(r@ =~= a@.subrange(0, i as int));
    }
    assert(a@.subrange(0, a@.len() as int) =~= a@);
    r
}

/// The first `n` bytes of `a`.
pub fn prefix_bytes(a: &[u8], n: usize) -> (r: Vec<u8>)
    requires
        n <= a@.len(),
    ensures
        r@ == a@.subrange(0, n as int),
{
    let mut r: Vec<u8> = Vec::new();
    let mut i: usize = 0;
    while i < n
        invariant
            n <= a@.len(),
            i <= n,
            r@ == a@.subrange(0, i as int),
        decreases n - i,
    {
        r.push(a[i]);
        i = i + 1;
        assert(r@ =~= a@.subrange(0, i as int));
    }
    r
}

/// The bytes of `a` from index `start` on.
pub fn suffix_bytes(a: &[u8], start: usize) -> (r: Vec<u8>)
    requires
        start <= a@.len(),
    ensures
        r@ == a@.subrange(start as int, a@.len() as int),
{
    let mut r: Vec<u8> = Vec::new();
    let mut i: usize = start;
    while i < a.len()
        invariant
            start <= i <= a@.len(),
            r@ == a@.subrange(start as int, i as int),
        decreases a@.len() - i,
    {
        r.push(a[i]);
        i = i + 1;
        assert(r@ =~= a@.subrange(start as int, i as int));
    }
    r
}

/// Whether key `a` comes before key `b`.
pub fn path_lt_bytes(a: &[u8], b: &[u8]) -> (r: bool)
    ensures
        r == path_lt(a@, b@),
{
    let mut i: usize = 0;
    assert(a@.skip(0) =~= a@);
    assert(b@.skip(0) =~= b@);
    while i < a.len() && i < b.len() && a[i] == b[i]
        invariant
            i <= a@.len(),
            i <= b@.len(),
            path_lt(a@, b@) == path_lt(a@.skip(i as int), b@.skip(i as int)),
        decreases a@.len() - i,
    {
        assert(a@.skip(i as int).drop_first() =~= a@.skip(i + 1));
        assert(b@.skip(i as int).drop_first() =~= b@.skip(i + 1));
        i = i + 1;
    }
    assert(i < a@.len() ==> a@.skip(i as int)[0] == a@[i as int]);
    assert(i < b@.len() ==> b@.skip(i as int)[0] == b@[i as int]);
    if i == b.len() {
        false
    } else if i == a.len() {
        true
    } else {
        let x = a[i];
        let y = b[i];
        let rx: i32 = if x == 47u8 { -1 } else { x as i32 };
        let ry: i32 = if y == 47u8 { -1 } else { y as i32 };
        rx < ry
    }
}

/// The pathspec that matches `path` literally, so that `*`, `[` and `?` in
/// file names carry no pattern meaning: `:(literal)` followed by the path.
pub fn literal_pathspec(path: &[u8]) -> (r: Vec<u8>)
    ensures
        r@ == literal_prefix() + path@,
{
    let mut r: Vec<u8> = Vec::new();
    r.push(58u8);
    r.push(40u8);
    r.push(108u8);
    r.push(105u8);
    r.push(116u8);
    r.push(101u8);
    r.push(114u8);
    r.push(97u8);
    r.push(108u8);
    r.push(41u8);
    assert(r@ =~= literal_prefix());
    let mut i: usize = 0;
    while i < path.len()
        invariant
            i <= path@.len(),
            r@ == literal_prefix() + path@.subrange(0, i as int),
        decreases path@.len() - i,
    {
        r.push(path[i]);
        i = i + 1;
        assert(r@ =~= literal_prefix() + path@.subrange(0, i as int));
    }
    assert(path@.subrange(0, path@.len() as int) =~= path@);
    r
}

/// The bytes of `:(literal)`.
pub open spec fn literal_prefix() -> Seq<u8> {
    seq![58u8, 40u8, 108u8, 105u8, 116u8, 101u8, 114u8, 97u8, 108u8, 41u8]
}

} // verus!

verus! {

/// The path git prints alone on a line (`rev-parse --git-dir`,
/// `rev-parse --show-toplevel`): the output read as UTF-8 (invalid
/// sequences replaced) with surrounding white space trimmed.
pub open spec fn output_path(raw: Seq<u8>) -> Seq<u8> {
    vstd::utf8::encode_utf8(crate::text::trim_white(crate::text::utf8_lossy(raw)))
}

/// The path in a line of git output.
pub fn path_from_output(raw: &[u8]) -> (r: Vec<u8>)
    ensures
        r@ == output_path(raw@),
{
    let text = crate::text::lossy_text(raw);
    let t = crate::text::trimmed(text.as_str());
    crate::text::text_bytes(&t)
}

/// `p` taken relative to `base`: `p` itself when it is absolute, else
/// `base` followed by `p`, with a separator between them when `base` is not
/// empty and does not already end in one.
pub open spec fn join_path(base: Seq<u8>, p: Seq<u8>) -> Seq<u8> {
    if p.len() > 0 && p[0] == slash() {
        p
    } else if base.len() == 0 || ends_with_slash(base) {
        base + p
    } else {
        base + seq![slash()] + p
    }
}

/// `p` taken relative to `base`, as `Path::join` does.
pub fn join_paths(base: &[u8], p: &[u8]) -> (r: Vec<u8>)
    ensures
        r@ == join_path(base@, p@),
{
    if p.len() > 0 && p[0] == 47u8 {
        return copy_bytes(p);
    }
    let mut r = copy_bytes(base);
    if base.len() > 0 && base[base.len() - 1] != 47u8 {
        r.push(47u8);
    }
    let ghost start = r@;
    let mut i: usize = 0;
    while i < p.len()
        invariant
            i <= p@.len(),
            r@ == start + p@.subrange(0, i as int),
        decreases p@.len() - i,
    {
        r.push(p[i]);
        i = i + 1;
        assert(r@ =~= start + p@.subrange(0, i as int));
    }
    assert(p@.subrange(0, p@.len() as int) =~= p@);
    r
}

} // verus!
