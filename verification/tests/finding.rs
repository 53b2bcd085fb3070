use dedoop::compare::{byte_compare_groups, LoadedFile, BYTE_CMP_THRESHOLD};
use dedoop::digest::{full_hash, Digest};
use dedoop::entry::FileEntry;
use dedoop::filter::{filter_by_inode_and_size, SizeGroup};
use dedoop::path::FilePath;
use dedoop::pipeline::{full_groups, full_jobs, hash_jobs, partial_groups};
use dedoop::resolve::{compares_bytes, final_groups, Resolution};
use dedoop::stats::{count_candidates, count_duplicates, count_wasted, Stats};

fn path(s: &str) -> FilePath {
    FilePath { bytes: s.as_bytes().to_vec() }
}

fn text(p: &FilePath) -> String {
    String::from_utf8(p.bytes.clone()).unwrap()
}

fn texts(paths: &[FilePath]) -> Vec<String> {
    paths.iter().map(text).collect()
}

fn entry(s: &str, ino: u64, size: u64) -> FileEntry {
    FileEntry { path: path(s), resolved: path(s), dev: 1, ino, size, on_hdd: false }
}

fn digest(n: u8) -> Digest {
    Digest { bytes: [n; 32] }
}

#[test]
fn hard_links_are_gathered_and_sizes_grouped() {
    let filtered = filter_by_inode_and_size(vec![
        entry("/a", 1, 5),
        entry("/b", 2, 7),
        entry("/a2", 1, 5),
        entry("/c", 3, 5),
        entry("/d", 4, 6),
        entry("/e", 5, 7),
        entry("/a3", 1, 5),
    ]);
    assert_eq!(filtered.inode_dupes_saved, 2);
    let groups: Vec<(u64, Vec<String>)> = filtered
        .size_groups
        .iter()
        .map(|g| (g.size, g.entries.iter().map(|e| text(&e.path)).collect()))
        .collect();
    assert_eq!(
        groups,
        vec![
            (5, vec!["/a".to_string(), "/c".to_string()]),
            (7, vec!["/b".to_string(), "/e".to_string()]),
        ]
    );
    assert_eq!(texts(filtered.inode_expand.get(&path("/a").key()).unwrap()), ["/a", "/a2", "/a3"]);
    assert!(filtered.inode_expand.get(&path("/b").key()).is_none());
    assert_eq!(count_candidates(&filtered.size_groups), 4);
}

#[test]
fn the_order_of_the_entries_does_not_matter() {
    let files = |order: &[usize]| {
        let all = [
            entry("/a", 1, 5),
            entry("/b", 2, 7),
            entry("/a2", 1, 5),
            entry("/c", 3, 5),
            entry("/d", 4, 6),
            entry("/e", 5, 7),
            entry("/a3", 1, 5),
        ];
        let given: Vec<FileEntry> = order.iter().map(|i| all[*i].clone()).collect();
        let first = given.iter().find(|e| e.ino == 1).unwrap().path.clone();
        let filtered = filter_by_inode_and_size(given);
        let groups: Vec<(u64, Vec<u64>)> = filtered
            .size_groups
            .iter()
            .map(|g| {
                let mut inodes: Vec<u64> = g.entries.iter().map(|e| e.ino).collect();
                inodes.sort();
                (g.size, inodes)
            })
            .collect();
        let mut linked = texts(filtered.inode_expand.get(&first.key()).unwrap());
        linked.sort();
        (groups, filtered.inode_dupes_saved, linked)
    };
    let expected = files(&[0, 1, 2, 3, 4, 5, 6]);
    assert_eq!(expected.0, vec![(5, vec![1, 3]), (7, vec![2, 5])]);
    assert_eq!(expected.1, 2);
    assert_eq!(expected.2, ["/a", "/a2", "/a3"]);
    assert_eq!(files(&[6, 5, 4, 3, 2, 1, 0]), expected);
    assert_eq!(files(&[3, 2, 5, 0, 6, 1, 4]), expected);
}

#[test]
fn inodes_of_other_devices_are_other_files() {
    let mut other = entry("/b", 1, 5);
    other.dev = 2;
    let filtered = filter_by_inode_and_size(vec![entry("/a", 1, 5), other]);
    assert_eq!(filtered.inode_dupes_saved, 0);
    assert_eq!(filtered.size_groups.len(), 1);
    assert_eq!(filtered.size_groups[0].entries.len(), 2);
}

#[test]
fn files_with_the_same_bytes_are_grouped_by_path() {
    let load = |s: &str, content: Option<&'static [u8]>| LoadedFile {
        entry: entry(s, 0, 3),
        content,
    };
    let (groups, left) = byte_compare_groups(vec![
        load("/z", Some(b"aaa")),
        load("/y", Some(b"bbb")),
        load("/x", None),
        load("/w", Some(b"aaa")),
        load("/v", Some(b"ccc")),
        load("/u", Some(b"bbb")),
        load("/t", Some(b"aaa")),
    ]);
    let groups: Vec<Vec<String>> = groups.iter().map(|g| texts(g)).collect();
    assert_eq!(groups, vec![vec!["/t", "/w", "/z"], vec!["/u", "/y"]]);
    let left: Vec<String> = left.iter().map(|e| text(&e.path)).collect();
    assert_eq!(left, ["/v", "/x"]);
}

#[test]
fn comparing_nothing_or_one_file_finds_nothing() {
    let (groups, left) = byte_compare_groups(vec![]);
    assert!(groups.is_empty() && left.is_empty());
    let one = LoadedFile { entry: entry("/a", 1, 1), content: Some(b"x") };
    let (groups, left) = byte_compare_groups(vec![one]);
    assert!(groups.is_empty());
    assert_eq!(left.len(), 1);
}

#[test]
fn small_groups_are_settled_by_comparing() {
    let filtered = filter_by_inode_and_size(vec![
        entry("/b", 1, 2),
        entry("/a", 2, 2),
        entry("/c", 1, 2),
        entry("/d", 3, 2),
        entry("/e", 4, 2),
    ]);
    let mut known = Resolution::new();
    for group in filtered.size_groups {
        assert!(compares_bytes(&group));
        let contents: Vec<Option<&[u8]>> =
            vec![Some(b"xx"), Some(b"xx"), Some(b"yy"), Some(b"zz")];
        known.settle(group, contents, &filtered.inode_expand);
    }
    assert_eq!(known.compared_groups(), 1);
    assert_eq!(texts(&known.groups[0].1), ["/a", "/b", "/c"]);
    assert_eq!(known.groups[0].0.bytes, *blake3::hash(b"/a").as_bytes());
    assert_eq!(known.candidates.len(), 1);
    assert_eq!(known.candidates[0].size, 2);
    let left: Vec<String> = known.candidates[0].entries.iter().map(|e| text(&e.path)).collect();
    assert_eq!(left, ["/d", "/e"]);
}

#[test]
fn a_single_file_that_is_left_is_not_hashed() {
    let entries = vec![entry("/a", 1, 1), entry("/b", 2, 1), entry("/c", 3, 1)];
    let group = SizeGroup { size: 1, entries };
    let filtered = filter_by_inode_and_size(vec![]);
    let mut known = Resolution::new();
    let contents: Vec<Option<&[u8]>> = vec![Some(b"x"), Some(b"y"), Some(b"x")];
    known.settle(group, contents, &filtered.inode_expand);
    assert_eq!(known.compared_groups(), 1);
    assert!(known.candidates.is_empty());
}

#[test]
fn files_that_could_not_be_compared_are_found_by_hashing() {
    let entries = vec![entry("/a", 1, 2), entry("/b", 2, 2), entry("/c", 3, 2), entry("/d", 4, 2)];
    let group = SizeGroup { size: 2, entries };
    let filtered = filter_by_inode_and_size(vec![]);
    let mut known = Resolution::new();
    let contents: Vec<Option<&[u8]>> = vec![None, Some(b"xx"), None, Some(b"xx")];
    known.settle(group, contents, &filtered.inode_expand);
    assert_eq!(texts(&known.groups[0].1), ["/b", "/d"]);
    let entries = hash_jobs(known.candidates);
    let partials = vec![Some(full_hash(b"yy")), Some(full_hash(b"yy"))];
    let jobs = full_jobs(&partial_groups(&entries, &partials));
    let (found, ops) = full_groups(&entries, &jobs, &partials, &filtered.inode_expand);
    assert_eq!(ops, 2);
    assert_eq!(found.len(), 1);
    assert_eq!(found[0].0.bytes, full_hash(b"yy").bytes);
    assert_eq!(texts(&found[0].1), ["/a", "/c"]);
}

#[test]
fn large_groups_are_left_to_be_hashed() {
    assert_eq!(BYTE_CMP_THRESHOLD, 8);
    let names: Vec<String> = (0..9).map(|i| format!("/{i}")).collect();
    let entries: Vec<FileEntry> =
        names.iter().enumerate().map(|(i, s)| entry(s, i as u64, 4)).collect();
    let group = SizeGroup { size: 4, entries };
    assert!(!compares_bytes(&group));
    let filtered = filter_by_inode_and_size(vec![]);
    let mut known = Resolution::new();
    known.settle(group, vec![], &filtered.inode_expand);
    assert_eq!(known.compared_groups(), 0);
    assert_eq!(known.candidates.len(), 1);
    let jobs = hash_jobs(known.candidates);
    let paths: Vec<String> = jobs.iter().map(|e| text(&e.path)).collect();
    assert_eq!(paths, names);
}

#[test]
fn samples_tell_files_apart_first() {
    let entries = vec![
        entry("/a", 1, 5),
        entry("/b", 2, 5),
        entry("/c", 3, 6),
        entry("/d", 4, 5),
        entry("/e", 5, 5),
        entry("/f", 6, 5),
    ];
    let partials = vec![
        Some(digest(9)),
        Some(digest(2)),
        Some(digest(9)),
        Some(digest(9)),
        None,
        Some(digest(2)),
    ];
    let groups = partial_groups(&entries, &partials);
    let members: Vec<(u64, u8, Vec<usize>)> =
        groups.iter().map(|g| (g.size, g.digest.bytes[0], g.members.clone())).collect();
    assert_eq!(members, vec![(5, 2, vec![1, 5]), (5, 9, vec![0, 3])]);
    let jobs: Vec<(usize, u64)> = full_jobs(&groups).iter().map(|j| (j.index, j.size)).collect();
    assert_eq!(jobs, [(1, 5), (5, 5), (0, 5), (3, 5)]);
}

#[test]
fn digests_of_contents_make_the_groups() {
    let filtered = filter_by_inode_and_size(vec![
        entry("/a", 1, 5),
        entry("/b", 2, 5),
        entry("/c", 3, 5),
        entry("/a2", 1, 5),
        entry("/d", 4, 5),
    ]);
    let entries = hash_jobs(filtered.size_groups);
    let partials: Vec<Option<Digest>> = entries.iter().map(|_| Some(digest(1))).collect();
    let groups = partial_groups(&entries, &partials);
    let jobs = full_jobs(&groups);
    assert_eq!(jobs.len(), 4);
    let fulls = vec![Some(digest(7)), Some(digest(8)), None, Some(digest(8))];
    let (found, ops) = full_groups(&entries, &jobs, &fulls, &filtered.inode_expand);
    assert_eq!(ops, 3);
    let found: Vec<(u8, Vec<String>)> =
        found.iter().map(|(d, paths)| (d.bytes[0], texts(paths))).collect();
    assert_eq!(
        found,
        vec![
            (7, vec!["/a".to_string(), "/a2".to_string()]),
            (8, vec!["/b".to_string(), "/d".to_string()]),
        ]
    );
}

#[test]
fn no_candidates_make_no_groups() {
    let filtered = filter_by_inode_and_size(vec![]);
    let entries = hash_jobs(filtered.size_groups);
    let groups = partial_groups(&entries, &vec![]);
    assert!(groups.is_empty());
    let jobs = full_jobs(&groups);
    let (found, ops) = full_groups(&entries, &jobs, &vec![], &filtered.inode_expand);
    assert!(found.is_empty());
    assert_eq!(ops, 0);
}

#[test]
fn identical_files_are_found_by_hashing() {
    let contents: Vec<Vec<u8>> = (0..12u8).map(|i| vec![i % 5; 100]).collect();
    let entries: Vec<FileEntry> = (0..12u64)
        .map(|i| entry(&format!("/f{i:02}"), i, 100))
        .collect();
    let filtered = filter_by_inode_and_size(entries);
    let entries = hash_jobs(filtered.size_groups);
    let partials: Vec<Option<Digest>> = contents.iter().map(|c| Some(full_hash(c))).collect();
    let groups = partial_groups(&entries, &partials);
    let jobs = full_jobs(&groups);
    let fulls: Vec<Option<Digest>> =
        jobs.iter().map(|j| Some(full_hash(&contents[j.index]))).collect();
    let (found, ops) = full_groups(&entries, &jobs, &fulls, &filtered.inode_expand);
    assert_eq!(ops, 12);
    let mut found: Vec<Vec<String>> = found.iter().map(|(_, paths)| texts(paths)).collect();
    found.sort();
    assert_eq!(
        found,
        vec![
            vec!["/f00", "/f05", "/f10"],
            vec!["/f01", "/f06", "/f11"],
            vec!["/f02", "/f07"],
            vec!["/f03", "/f08"],
            vec!["/f04", "/f09"],
        ]
    );
}

#[test]
fn every_group_stays() {
    let all = final_groups(
        vec![
            (digest(5), vec![path("/a"), path("/b")]),
            (digest(2), vec![path("/c"), path("/d")]),
        ],
        vec![
            (digest(9), vec![path("/e"), path("/f")]),
            (digest(5), vec![path("/g"), path("/h")]),
        ],
    );
    let all: Vec<(u8, Vec<String>)> =
        all.iter().map(|(d, paths)| (d.bytes[0], texts(paths))).collect();
    assert_eq!(
        all,
        vec![
            (2, vec!["/c".to_string(), "/d".to_string()]),
            (5, vec!["/a".to_string(), "/b".to_string()]),
            (5, vec!["/g".to_string(), "/h".to_string()]),
            (9, vec!["/e".to_string(), "/f".to_string()]),
        ]
    );
}

#[test]
fn files_that_hold_a_path_do_not_displace_its_group() {
    let group = SizeGroup { size: 3, entries: vec![entry("/a", 1, 3), entry("/b", 2, 3)] };
    let filtered = filter_by_inode_and_size(vec![]);
    let mut known = Resolution::new();
    known.settle(group, vec![Some(b"xyz"), Some(b"xyz")], &filtered.inode_expand);
    let hashed = vec![(full_hash(b"/a"), vec![path("/c"), path("/d")])];
    assert_eq!(known.groups[0].0.bytes, hashed[0].0.bytes);
    let all = final_groups(known.groups, hashed);
    assert_eq!(all.len(), 2);
    assert_eq!(texts(&all[0].1), ["/a", "/b"]);
    assert_eq!(texts(&all[1].1), ["/c", "/d"]);
}

#[test]
fn unreadable_files_disturb_no_others() {
    let names = ["/a", "/b", "/c", "/d", "/e"];
    let run = |readable: &[usize], places: &[usize]| {
        let entries: Vec<FileEntry> =
            places.iter().map(|i| entry(names[*i], *i as u64, 4)).collect();
        let partials: Vec<Option<Digest>> = places
            .iter()
            .map(|i| if readable.contains(i) { Some(digest(1)) } else { None })
            .collect();
        let jobs = full_jobs(&partial_groups(&entries, &partials));
        let fulls: Vec<Option<Digest>> = jobs.iter().map(|_| Some(digest(6))).collect();
        let links = filter_by_inode_and_size(vec![]).inode_expand;
        let (found, ops) = full_groups(&entries, &jobs, &fulls, &links);
        let found: Vec<(u8, Vec<String>)> =
            found.iter().map(|(d, paths)| (d.bytes[0], texts(paths))).collect();
        (found, ops)
    };
    let with = run(&[0, 2, 4], &[0, 1, 2, 3, 4]);
    assert_eq!(with, run(&[0, 2, 4], &[0, 2, 4]));
    assert_eq!(with.1, 3);
    assert_eq!(with.0[0].1, ["/a", "/c", "/e"]);
}

#[test]
fn numbers_sum_a_search_up() {
    let table = final_groups(
        vec![(digest(1), vec![path("/a"), path("/b"), path("/c")])],
        vec![(digest(2), vec![path("/d"), path("/e")])],
    );
    let sizes = vec![Some(10), Some(7)];
    assert_eq!(count_duplicates(&table), Some(3));
    assert_eq!(count_wasted(&table, &sizes), Some(27));
    assert_eq!(count_wasted(&table, &vec![None, Some(7)]), Some(7));
    let stats = Stats::gather(5, 2, &table, &sizes, 1, 4).unwrap();
    assert_eq!(stats.total, 7);
    assert_eq!(stats.total_dupes, 3);
    assert_eq!(stats.inode_dupes, 2);
    assert_eq!(stats.wasted, 27);
    assert_eq!(stats.byte_cmp_wins, 1);
    assert_eq!(stats.hash_ops, 4);
}

#[test]
fn numbers_that_do_not_fit_are_not_given() {
    let table = final_groups(vec![(digest(1), vec![path("/a"), path("/b"), path("/c")])], vec![]);
    assert_eq!(count_wasted(&table, &vec![Some(u64::MAX)]), None);
    assert!(Stats::gather(0, 0, &table, &vec![Some(u64::MAX)], 0, 0).is_none());
    assert!(Stats::gather(u64::MAX, 1, &table, &vec![Some(1)], 0, 0).is_none());
    assert!(Stats::gather(u64::MAX, 0, &table, &vec![Some(1)], 0, 0).is_some());
}

#[test]
fn hard_links_of_identical_files_are_found_together() {
    let entries = vec![
        entry("/x", 1, 3),
        entry("/y", 2, 3),
        entry("/x2", 1, 3),
        entry("/y2", 2, 3),
        entry("/z", 3, 3),
    ];
    let filtered = filter_by_inode_and_size(entries);
    let mut known = Resolution::new();
    for group in filtered.size_groups {
        let contents: Vec<Option<&[u8]>> = vec![Some(b"abc"), Some(b"abc"), Some(b"xyz")];
        known.settle(group, contents, &filtered.inode_expand);
    }
    let all = final_groups(known.groups, vec![]);
    assert_eq!(all.len(), 1);
    assert_eq!(texts(&all[0].1), ["/x", "/x2", "/y", "/y2"]);
}
