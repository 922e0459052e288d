use std::path::{Component, Path};

use git_chai::components::{
    as_path_bytes, bucket_dir_bytes, file_name_bytes, parent_bytes, path_components,
    path_key_bytes,
};
use git_chai::paths::{join_paths, literal_pathspec, path_from_output, path_lt_bytes};

const SAMPLES: &[&str] = &[
    "", ".", "..", "/", "//", "./", ".//", "./a", "./a/", "a", "a/", "a//", "a/.", "a/./",
    "a/./b", "a//b", "a/b", "a/b/", "a/b/.", "a/..", "a/../b", "../a", "/a", "/a/", "/./a",
    "//a//b/", "x/./y", "x/b", "x/.", ".a", ".a/b", "a.", "a/.b", "a-b", "a/b/c", "src",
    "src/a.rs", "root.txt", "newpkg/", "dir/with space.txt", "a/.../b", "./.", "/.",
];

fn bytes_of(path: &Path) -> Vec<u8> {
    path.to_str().unwrap().as_bytes().to_vec()
}

fn std_components(p: &str) -> Vec<Vec<u8>> {
    Path::new(p)
        .components()
        .map(|c| match c {
            Component::RootDir => b"/".to_vec(),
            Component::CurDir => b".".to_vec(),
            Component::ParentDir => b"..".to_vec(),
            Component::Normal(n) => n.to_str().unwrap().as_bytes().to_vec(),
            Component::Prefix(_) => panic!("no prefixes on this platform"),
        })
        .collect()
}

#[test]
fn components_match_std() {
    for p in SAMPLES {
        assert_eq!(path_components(p.as_bytes()), std_components(p), "components of {:?}", p);
    }
}

#[test]
fn parents_match_std() {
    for p in SAMPLES {
        let expected = Path::new(p).parent().map(bytes_of);
        assert_eq!(parent_bytes(p.as_bytes()), expected, "parent of {:?}", p);
    }
}

#[test]
fn file_names_match_std() {
    for p in SAMPLES {
        let expected = Path::new(p)
            .file_name()
            .map(|n| n.to_str().unwrap().as_bytes().to_vec());
        assert_eq!(file_name_bytes(p.as_bytes()), expected, "file name of {:?}", p);
    }
}

#[test]
fn trimmed_paths_match_std() {
    for p in SAMPLES {
        let expected = bytes_of(Path::new(p).components().as_path());
        assert_eq!(as_path_bytes(p.as_bytes()), expected, "as_path of {:?}", p);
    }
}

#[test]
fn keys_order_and_identify_paths_as_std_does() {
    for a in SAMPLES {
        for b in SAMPLES {
            let ka = path_key_bytes(a.as_bytes());
            let kb = path_key_bytes(b.as_bytes());
            assert_eq!(
                path_lt_bytes(&ka, &kb),
                Path::new(a) < Path::new(b),
                "order of {:?} and {:?}",
                a,
                b
            );
            assert_eq!(ka == kb, Path::new(a) == Path::new(b), "equality of {:?} and {:?}", a, b);
        }
    }
}

#[test]
fn changed_files_lie_in_their_parent_or_the_top() {
    assert_eq!(bucket_dir_bytes(b"src/a.rs"), b"src".to_vec());
    assert_eq!(bucket_dir_bytes(b"x/./y"), b"x".to_vec());
    assert_eq!(bucket_dir_bytes(b"x/."), b".".to_vec());
    assert_eq!(bucket_dir_bytes(b"root.txt"), b".".to_vec());
    assert_eq!(bucket_dir_bytes(b"a//b/c"), b"a//b".to_vec());
    assert_eq!(bucket_dir_bytes(b"/top"), b"/".to_vec());
    assert_eq!(bucket_dir_bytes(b""), b".".to_vec());
    assert_eq!(bucket_dir_bytes(b"/"), b".".to_vec());
}

#[test]
fn paths_compare_component_by_component() {
    // "a" is a prefix component of "a/b", which therefore sorts before "a-b",
    // although '-' is a smaller byte than '/'.
    let k = |p: &str| path_key_bytes(p.as_bytes());
    assert!(path_lt_bytes(&k("a/b"), &k("a-b")));
    assert!(!path_lt_bytes(&k("a-b"), &k("a/b")));
    assert!(path_lt_bytes(&k("."), &k("src")));
    assert!(path_lt_bytes(&k("root.txt"), &k("src")));
    assert!(path_lt_bytes(&k("src"), &k("src/a.rs")));
    assert!(!path_lt_bytes(&k("src"), &k("src")));
    assert_eq!(k("x/./y"), k("x/y"));
}

#[test]
fn literal_pathspecs() {
    assert_eq!(literal_pathspec(b"we[ird].txt"), b":(literal)we[ird].txt".to_vec());
    assert_eq!(literal_pathspec(b""), b":(literal)".to_vec());
}

#[test]
fn paths_from_git_output() {
    assert_eq!(path_from_output(b"  /work/repo\n"), b"/work/repo".to_vec());
    assert_eq!(path_from_output(b".git\n"), b".git".to_vec());
    assert_eq!(path_from_output(b"bad\xff\n"), "bad\u{fffd}".as_bytes().to_vec());
}

#[test]
fn joins_relative_paths() {
    assert_eq!(join_paths(b"/work/repo", b".git"), b"/work/repo/.git".to_vec());
    assert_eq!(join_paths(b"/work/repo/", b".git"), b"/work/repo/.git".to_vec());
    assert_eq!(join_paths(b"/work/repo", b"/elsewhere/.git"), b"/elsewhere/.git".to_vec());
    assert_eq!(join_paths(b"", b"x"), b"x".to_vec());
}
