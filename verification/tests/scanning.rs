use dedoop::drive::{
    detect_hdd_devices, hdd_worker_threads, split_by_drive, worker_threads, BlockDevice,
};
use dedoop::entry::{retain_min_size, FileEntry, FileMeta, Probe};
use dedoop::path::FilePath;
use dedoop::scan::{
    collect_files, enough_files, plan_scan, preferred_folder, scan_folders, walk_subtree,
    EntryKind, FolderListing, Found, Listed,
};
use std::collections::HashSet;

fn path(s: &str) -> FilePath {
    FilePath { bytes: s.as_bytes().to_vec() }
}

fn text(p: &FilePath) -> String {
    String::from_utf8(p.bytes.clone()).unwrap()
}

fn texts(paths: &[FilePath]) -> Vec<String> {
    paths.iter().map(text).collect()
}

fn probe(s: &str, len: u64) -> Probe {
    Probe {
        path: path(s),
        absolute: Some(path(&format!("/abs/{s}"))),
        resolved: Some(path(&format!("/real/{s}"))),
        meta: Some(FileMeta { is_file: true, dev: 3, ino: 9, len }),
    }
}

#[test]
fn an_entry_has_the_absolute_path() {
    let mut hdd: HashSet<u64> = HashSet::new();
    hdd.insert(3);
    let entry = FileEntry::from_path(probe("x", 5), 1, &hdd).unwrap();
    assert_eq!(text(&entry.path), "/abs/x");
    assert_eq!(text(&entry.resolved), "/real/x");
    assert_eq!((entry.dev, entry.ino, entry.size, entry.on_hdd), (3, 9, 5, true));
    let mut bare = probe("x", 5);
    bare.absolute = None;
    bare.resolved = None;
    let entry = FileEntry::from_path(bare, 5, &HashSet::new()).unwrap();
    assert_eq!(text(&entry.path), "x");
    assert_eq!(text(&entry.resolved), "x");
    assert!(!entry.on_hdd);
}

#[test]
fn small_files_and_other_things_have_no_entry() {
    let none: HashSet<u64> = HashSet::new();
    assert!(FileEntry::from_path(probe("x", 4), 5, &none).is_none());
    let mut dir = probe("x", 5);
    dir.meta = Some(FileMeta { is_file: false, dev: 3, ino: 9, len: 5 });
    assert!(FileEntry::from_path(dir, 1, &none).is_none());
    let mut gone = probe("x", 5);
    gone.meta = None;
    assert!(FileEntry::from_path(gone, 1, &none).is_none());
}

#[test]
fn one_directory_is_searched_once() {
    assert_eq!(texts(&scan_folders(path("a"), None)), ["a"]);
    assert_eq!(texts(&scan_folders(path("a"), Some(path("b")))), ["a", "b"]);
    assert_eq!(texts(&scan_folders(path("a"), Some(path("a/")))), ["a"]);
}

#[test]
fn the_first_directory_is_preferred_by_default() {
    assert_eq!(text(&preferred_folder(None, path("a"))), "a");
    assert_eq!(text(&preferred_folder(Some(path("p")), path("a"))), "p");
    assert!(!enough_files(1));
    assert!(enough_files(2));
}

fn listing() -> Vec<FolderListing> {
    let listed = |s: &str, kind: EntryKind| Listed { path: path(s), kind };
    vec![
        FolderListing {
            found: true,
            entries: Some(vec![
                listed("/f/sub", EntryKind::Dir),
                listed("/f/.git", EntryKind::Dir),
                listed("/f/a.txt", EntryKind::File),
                listed("/f/.env", EntryKind::File),
                listed("/f/link", EntryKind::Other),
                listed("/f/odd", EntryKind::Unknown),
            ]),
        },
        FolderListing { found: false, entries: None },
        FolderListing { found: true, entries: None },
        FolderListing {
            found: true,
            entries: Some(vec![
                listed("/g/b.txt", EntryKind::File),
                listed("/g/sub", EntryKind::Dir),
            ]),
        },
    ]
}

#[test]
fn hidden_things_are_skipped() {
    let plan = plan_scan(listing(), true);
    assert_eq!(plan.missing, vec![1]);
    assert_eq!(texts(&plan.top_dirs), ["/f/sub", "/g/sub"]);
    assert_eq!(texts(&plan.direct), ["/f/a.txt", "/g/b.txt"]);
}

#[test]
fn hidden_things_can_take_part() {
    let plan = plan_scan(listing(), false);
    assert_eq!(plan.missing, vec![1]);
    assert_eq!(texts(&plan.top_dirs), ["/f/sub", "/f/.git", "/g/sub"]);
    assert_eq!(texts(&plan.direct), ["/f/a.txt", "/f/.env", "/g/b.txt"]);
}

fn found(s: &str, len: u64, is_file: bool, is_symlink: bool) -> Found {
    Found { probe: probe(s, len), is_file, is_symlink }
}

fn paths_of(files: &[FileEntry]) -> Vec<String> {
    files.iter().map(|e| text(&e.path)).collect()
}

#[test]
fn regular_files_take_part() {
    let files = walk_subtree(
        vec![
            found("d/a", 1, true, false),
            found("d/empty", 0, true, false),
            found("d", 9, false, false),
            found("d/link", 9, true, true),
            found("d/b", 2, true, false),
        ],
        &path("/abs/d"),
        true,
        &HashSet::new(),
    );
    assert_eq!(paths_of(&files), ["/abs/d/a", "/abs/d/empty", "/abs/d/b"]);

    let all = collect_files(
        vec![probe("top", 7), probe("none", 0)],
        vec![files, vec![]],
        &HashSet::new(),
    );
    assert_eq!(
        paths_of(&all),
        ["/abs/top", "/abs/none", "/abs/d/a", "/abs/d/empty", "/abs/d/b"]
    );

    let everything = retain_min_size(all.clone(), 0);
    assert_eq!(everything.len(), 5);
    let kept = retain_min_size(all, 2);
    let sizes: Vec<u64> = kept.iter().map(|e| e.size).collect();
    assert_eq!(sizes, [7, 2]);
}

#[test]
fn an_empty_file_is_collected() {
    let all = collect_files(vec![probe("e", 0)], vec![], &HashSet::new());
    assert_eq!(paths_of(&all), ["/abs/e"]);
    assert_eq!(all[0].size, 0);
    assert!(retain_min_size(all, 1).is_empty());
}

fn below_hidden() -> Vec<Found> {
    vec![
        found(".d/a", 1, true, false),
        found(".d/.b", 1, true, false),
        found(".d/.git/c", 1, true, false),
        found(".d/s/d.txt", 1, true, false),
        found(".d/s/.e/f/g", 1, true, false),
    ]
}

#[test]
fn skipping_hidden_things_is_a_filter() {
    let base = path("/abs/.d");
    let all = walk_subtree(below_hidden(), &base, false, &HashSet::new());
    assert_eq!(all.len(), 5);
    let some = walk_subtree(below_hidden(), &base, true, &HashSet::new());
    assert_eq!(paths_of(&some), ["/abs/.d/a", "/abs/.d/s/d.txt"]);
    let pruned: Vec<Found> = below_hidden()
        .into_iter()
        .filter(|f| !text(&f.probe.path).contains("/."))
        .collect();
    assert_eq!(pruned.len(), 2);
    let again = walk_subtree(pruned, &base, true, &HashSet::new());
    assert_eq!(paths_of(&again), paths_of(&some));
}

#[test]
fn names_that_are_no_text_take_part() {
    let odd = |name: &[u8]| {
        let mut bytes = b"/d/s/".to_vec();
        bytes.extend_from_slice(name);
        Found {
            probe: Probe {
                path: FilePath { bytes },
                absolute: None,
                resolved: None,
                meta: Some(FileMeta { is_file: true, dev: 1, ino: 1, len: 1 }),
            },
            is_file: true,
            is_symlink: false,
        }
    };
    let files = walk_subtree(
        vec![odd(b"\xff.txt"), odd(b".\xff")],
        &path("/d/s"),
        true,
        &HashSet::new(),
    );
    assert_eq!(files.len(), 1);
    assert_eq!(files[0].path.bytes, b"/d/s/\xff.txt".to_vec());
    assert_eq!(files[0].size, 1);
}

#[test]
fn drives_rotate_where_the_flag_says_so() {
    let device = |flag: Option<&str>, dev: Option<u64>| BlockDevice {
        rotational: flag.map(|f| f.to_string()),
        dev,
    };
    let hdd = detect_hdd_devices(&vec![
        device(Some("1\n"), Some(10)),
        device(Some("0\n"), Some(11)),
        device(None, Some(12)),
        device(Some(" 1 "), None),
        device(Some("11"), Some(13)),
        device(Some("1"), Some(14)),
    ]);
    let mut found: Vec<u64> = hdd.into_iter().collect();
    found.sort();
    assert_eq!(found, [10, 14]);
}

#[test]
fn workers_are_limited_on_rotational_drives() {
    assert_eq!(worker_threads(Some(3), Some(8)), 3);
    assert_eq!(worker_threads(None, Some(8)), 8);
    assert_eq!(worker_threads(None, None), 4);
    assert_eq!(hdd_worker_threads(8, 4), 4);
    assert_eq!(hdd_worker_threads(2, 4), 2);
    assert_eq!(hdd_worker_threads(8, 0), 1);
}

#[test]
fn every_file_has_its_place_in_one_list() {
    let entry = |on_hdd: bool| FileEntry {
        path: path("x"),
        resolved: path("x"),
        dev: 0,
        ino: 0,
        size: 1,
        on_hdd,
    };
    let (hdd, other) = split_by_drive(&vec![entry(false), entry(true), entry(true), entry(false)]);
    assert_eq!(hdd, [1, 2]);
    assert_eq!(other, [0, 3]);
}
