use dedoop::order::SortKey;
use dedoop::path::{split_name, FilePath};
use std::path::Path;

const SAMPLES: [&str; 24] = [
    "",
    "/",
    "//",
    ".",
    "..",
    "./",
    "./a",
    "a",
    "a/",
    "a//b",
    "a/./b",
    "a/../b",
    "/a",
    "/a/b",
    "/a/b/.",
    "/a/b/..",
    "//a//b//",
    "a.txt",
    "a/.hidden",
    "a/b.tar.gz",
    "/a-b",
    "/a/B",
    "..a/b",
    "/a/bc",
];

fn path(s: &str) -> FilePath {
    FilePath { bytes: s.as_bytes().to_vec() }
}

#[test]
fn repeated_slashes_do_not_count() {
    assert!(path("a//b/").same(&path("a/b")));
    assert!(path("a/./b").same(&path("a/b")));
    assert!(!path("./a").same(&path("a")));
    assert!(!path("a/../b").same(&path("b")));
}

#[test]
fn paths_are_the_same_as_in_std() {
    for a in SAMPLES {
        for b in SAMPLES {
            assert_eq!(path(a).same(&path(b)), Path::new(a) == Path::new(b), "{a:?} {b:?}");
        }
    }
}

#[test]
fn paths_lie_below_others_as_in_std() {
    for a in SAMPLES {
        for b in SAMPLES {
            assert_eq!(
                path(a).starts_with(&path(b)),
                Path::new(a).starts_with(Path::new(b)),
                "{a:?} {b:?}"
            );
        }
    }
}

#[test]
fn paths_come_in_the_order_of_std() {
    for a in SAMPLES {
        for b in SAMPLES {
            assert_eq!(
                path(a).key().at_most(&path(b).key()),
                Path::new(a) <= Path::new(b),
                "{a:?} {b:?}"
            );
        }
    }
}

#[test]
fn file_names_are_those_of_std() {
    for a in SAMPLES {
        let expected = Path::new(a).file_name().map(|n| n.to_str().unwrap().as_bytes().to_vec());
        assert_eq!(path(a).file_name(), expected, "{a:?}");
    }
}

#[test]
fn joined_paths_are_those_of_std() {
    for a in SAMPLES {
        for b in SAMPLES {
            let expected = Path::new(a).join(b).to_str().unwrap().as_bytes().to_vec();
            assert_eq!(path(a).join(b.as_bytes()).bytes, expected, "{a:?} {b:?}");
        }
    }
}

#[test]
fn names_split_as_in_std() {
    for name in ["a", "a.b", "a.b.c", ".a", ".a.b", "a.", "a..b", "..a", "...", "x.tar.gz"] {
        let (stem, extension) = split_name(name.as_bytes());
        let p = Path::new(name);
        assert_eq!(stem, p.file_stem().unwrap().to_str().unwrap().as_bytes().to_vec(), "{name:?}");
        assert_eq!(
            extension,
            p.extension().map(|e| e.to_str().unwrap().as_bytes().to_vec()),
            "{name:?}"
        );
    }
}

#[test]
fn what_is_put_below_a_directory_lies_below_it() {
    for dir in SAMPLES {
        let joined = path(dir).join(b"x/y");
        assert!(joined.starts_with(&path(dir)));
        assert_eq!(joined.file_name(), Some(b"y".to_vec()));
    }
}

#[test]
fn being_below_carries_over() {
    let base = path("/data");
    let mid = path("/data/photos/");
    let deep = path("/data//photos/2020/x.jpg");
    assert!(deep.starts_with(&mid));
    assert!(mid.starts_with(&base));
    assert!(deep.starts_with(&base));
    assert!(!path("/database/x").starts_with(&base));
}
