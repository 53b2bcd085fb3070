use dedoop::digest::Digest;
use dedoop::entry::FileEntry;
use dedoop::links::{link_name, links_to_remove, symlink_to_dir};
use dedoop::organise::{organise, output_actions, plan_groups, Action, GroupPlan};
use dedoop::output::{Inside, InsideKind, OutputDir};
use dedoop::path::FilePath;
use dedoop::place::{place, resolved_places, PlaceTable};
use dedoop::report::{
    join_lines, outcome_of, preview, report_lines, report_text, short_hex, shows_report,
    summary, Outcome,
};
use dedoop::resolve::final_groups;
use dedoop::select::pick_original;
use dedoop::stats::Stats;

fn path(s: &str) -> FilePath {
    FilePath { bytes: s.as_bytes().to_vec() }
}

fn text(p: &FilePath) -> String {
    String::from_utf8(p.bytes.clone()).unwrap()
}

fn texts(paths: &[FilePath]) -> Vec<String> {
    paths.iter().map(text).collect()
}

fn digest(n: u8) -> Digest {
    Digest { bytes: [n; 32] }
}

fn picked(group: &[&str], prefer: &str) -> (String, Vec<String>) {
    let paths: Vec<FilePath> = group.iter().map(|s| path(s)).collect();
    let (original, duplicates) = pick_original(&paths, &path(prefer));
    (text(&original), texts(&duplicates))
}

#[test]
fn a_path_below_the_preferred_directory_is_the_original() {
    let (original, duplicates) = picked(&["/b/x", "/m/sub/x", "/m/x", "/c/x"], "/m");
    assert_eq!(original, "/m/sub/x");
    assert_eq!(duplicates, ["/b/x", "/m/x", "/c/x"]);
}

#[test]
fn else_the_shortest_path_is_the_original() {
    let (original, duplicates) = picked(&["/long/path", "/mm", "/nn", "/longer/path"], "/m");
    assert_eq!(original, "/mm");
    assert_eq!(duplicates, ["/nn", "/long/path", "/longer/path"]);
}

#[test]
fn a_path_alone_is_the_original() {
    assert_eq!(picked(&["/x"], "/m"), ("/x".to_string(), vec![]));
}

#[test]
fn a_preferred_path_that_occurs_twice_is_no_duplicate() {
    let (original, duplicates) = picked(&["/m/x", "/m//x", "/b/x"], "/m");
    assert_eq!(original, "/m/x");
    assert_eq!(duplicates, ["/b/x"]);
}

#[test]
fn groups_come_in_the_order_of_their_digests() {
    let table = final_groups(
        vec![(digest(0xa0), vec![path("/a"), path("/bb")])],
        vec![(digest(0x1f), vec![path("/cc"), path("/p/d")])],
    );
    let plans = plan_groups(&table, &path("/p"));
    assert_eq!(plans.len(), 2);
    assert!(plans[0].digest.to_hex() < plans[1].digest.to_hex());
    assert_eq!(text(&plans[0].original), "/p/d");
    assert_eq!(texts(&plans[0].duplicates), ["/cc"]);
    assert_eq!(text(&plans[1].original), "/a");
    assert_eq!(texts(&plans[1].duplicates), ["/bb"]);
}

fn described(action: &Action) -> String {
    match action {
        Action::CreateDir(p) => format!("mkdir {}", text(p)),
        Action::Link(p, d) => format!("link {} {}", text(p), text(d)),
        Action::DeleteSource(p) => format!("delete {}", text(p)),
        Action::RemoveLinks(p, d) => format!("unlink {} {}", text(p), text(d)),
        Action::RemoveEmptyDir(p) => format!("rmdir {}", text(p)),
        Action::WriteReport(p) => format!("report {}", text(p)),
        Action::RemoveTree(p) => format!("rmtree {}", text(p)),
    }
}

fn plan(n: u8, original: &str, duplicates: &[&str]) -> GroupPlan {
    GroupPlan {
        digest: digest(n),
        original: path(original),
        duplicates: duplicates.iter().map(|s| path(s)).collect(),
    }
}

fn places(pairs: &[(&str, &str)]) -> PlaceTable {
    let entries: Vec<FileEntry> = pairs
        .iter()
        .map(|(p, r)| FileEntry {
            path: path(p),
            resolved: path(r),
            dev: 0,
            ino: 0,
            size: 1,
            on_hdd: false,
        })
        .collect();
    resolved_places(&entries)
}

fn report_start() -> Vec<u8> {
    let rule = "=".repeat(78);
    format!("{rule}\nFASTDEDUP — DUPLICATE REPORT (Rust)\n{rule}\nTotal").into_bytes()
}

/// An output directory with these files in it; one at the place of the report is an
/// earlier report.
fn output(files: &[&str]) -> OutputDir {
    OutputDir {
        path: path("out"),
        place: path("/w/out"),
        searched: vec![],
        inside: files
            .iter()
            .map(|s| Inside { path: path(s), kind: InsideKind::File })
            .collect(),
        report: Some(report_start()),
    }
}

fn actions(plans: &Vec<GroupPlan>, files: &[&str], delete: bool) -> Vec<String> {
    organise(plans, &places(&[]), &output(files), delete).iter().map(described).collect()
}

#[test]
fn paths_stand_for_their_resolved_paths() {
    let table = places(&[("/a/x", "/real/x"), ("/b/../a/x", "/real/x")]);
    assert_eq!(text(&place(&table, &path("/a//x"))), "/real/x");
    assert_eq!(text(&place(&table, &path("/b/../a/x"))), "/real/x");
    assert_eq!(text(&place(&table, &path("/c"))), "/c");
}

#[test]
fn links_and_a_report_are_made() {
    let plans = vec![plan(1, "/a/x", &["/b/x", "/c/x"]), plan(2, "/a/y", &["/b/y"])];
    assert_eq!(
        actions(&plans, &["/w/out/mine"], false),
        [
            "mkdir out",
            "mkdir out/group_0001/original",
            "mkdir out/group_0001/duplicates",
            "link /a/x out/group_0001/original",
            "link /b/x out/group_0001/duplicates",
            "link /c/x out/group_0001/duplicates",
            "mkdir out/group_0002/original",
            "mkdir out/group_0002/duplicates",
            "link /a/y out/group_0002/original",
            "link /b/y out/group_0002/duplicates",
            "report out/duplicate_report.txt",
        ]
    );
}

#[test]
fn duplicates_are_deleted_and_one_copy_kept() {
    let plans = vec![plan(1, "/a/x", &["/b/x"]), plan(2, "/a/y", &["/a//y", "/a/x", "/b/y"])];
    assert_eq!(
        actions(&plans, &["/a/x", "/w/out/duplicate_report.txt"], true),
        [
            "mkdir out",
            "mkdir out/group_0001/original",
            "mkdir out/group_0001/duplicates",
            "link /a/x out/group_0001/original",
            "link /b/x out/group_0001/duplicates",
            "delete /b/x",
            "unlink /b/x out/group_0001/duplicates",
            "rmdir out/group_0001/duplicates",
            "mkdir out/group_0002/original",
            "mkdir out/group_0002/duplicates",
            "link /a/y out/group_0002/original",
            "link /a//y out/group_0002/duplicates",
            "link /a/x out/group_0002/duplicates",
            "link /b/y out/group_0002/duplicates",
            "delete /b/y",
            "unlink /b/y out/group_0002/duplicates",
            "rmdir out/group_0002/duplicates",
            "report out/duplicate_report.txt",
            "rmtree out",
        ]
    );
}

fn deleted(actions: &[Action]) -> Vec<String> {
    actions.iter().map(described).filter(|s| s.starts_with("delete")).collect()
}

#[test]
fn one_file_found_twice_is_not_deleted() {
    let paths = vec![path("/d/x"), path("/d/x"), path("/e/y")];
    let groups = final_groups(vec![(digest(1), paths)], vec![]);
    let plans = plan_groups(&groups, &path("/elsewhere"));
    assert_eq!(text(&plans[0].original), "/d/x");
    assert_eq!(texts(&plans[0].duplicates), ["/d/x", "/e/y"]);
    let actions = organise(&plans, &places(&[]), &output(&[]), true);
    assert_eq!(deleted(&actions), ["delete /e/y"]);
}

#[test]
fn a_file_is_not_deleted_under_another_path() {
    let plans = vec![plan(1, "/a/x", &["/a/../a/x", "/link/x", "/b/y"])];
    let table = places(&[
        ("/a/x", "/a/x"),
        ("/a/../a/x", "/a/x"),
        ("/link/x", "/a/x"),
        ("/b/y", "/b/y"),
    ]);
    let actions = organise(&plans, &table, &output(&[]), true);
    assert_eq!(deleted(&actions), ["delete /b/y"]);
}

#[test]
fn an_output_directory_that_holds_other_files_stays() {
    let plans = vec![plan(1, "/a/x", &["/b/x", "/w/out/x"])];
    let last = |files: &[&str]| actions(&plans, files, true).pop().unwrap();
    assert_eq!(last(&["/a/x", "/b/x"]), "rmtree out");
    assert_eq!(last(&["/w/out/x", "/w/out/duplicate_report.txt"]), "rmtree out");
    assert_eq!(last(&["/w/out/x", "/w/out/mine"]), "report out/duplicate_report.txt");
    assert_eq!(last(&["/w/out/.hidden"]), "report out/duplicate_report.txt");
}

#[test]
fn an_output_directory_that_holds_an_original_stays() {
    let plans = vec![plan(1, "/o/x", &["/b/x"])];
    let table = places(&[("/o/x", "/w/out/x")]);
    let actions: Vec<String> =
        organise(&plans, &table, &output(&[]), true).iter().map(described).collect();
    assert_eq!(
        actions,
        [
            "mkdir out",
            "mkdir out/group_0001/original",
            "mkdir out/group_0001/duplicates",
            "link /o/x out/group_0001/original",
            "link /b/x out/group_0001/duplicates",
            "delete /b/x",
            "unlink /b/x out/group_0001/duplicates",
            "rmdir out/group_0001/duplicates",
            "report out/duplicate_report.txt",
        ]
    );
}

fn last(plans: &Vec<GroupPlan>, output: &OutputDir, delete: bool) -> String {
    described(organise(plans, &places(&[]), output, delete).last().unwrap())
}

#[test]
fn the_report_is_written_over_an_earlier_one_only() {
    let plans = vec![plan(1, "/a/x", &["/b/x"])];
    let spot = "/w/out/duplicate_report.txt";
    let report = "report out/duplicate_report.txt";
    let link = "link /b/x out/group_0001/duplicates";
    assert_eq!(last(&plans, &output(&[]), false), report);
    assert_eq!(last(&plans, &output(&[spot]), false), report);
    for start in [None, Some(b"mine".to_vec()), Some(report_start()[..170].to_vec())] {
        let mut dir = output(&[spot]);
        dir.report = start.clone();
        assert_eq!(last(&plans, &dir, false), link);
        assert_eq!(last(&plans, &dir, true), "rmdir out/group_0001/duplicates");
        let mut dir = output(&[]);
        dir.searched = vec![path("/w/out//duplicate_report.txt")];
        dir.report = start;
        assert_eq!(last(&plans, &dir, false), link);
        assert_eq!(last(&plans, &dir, true), "rmdir out/group_0001/duplicates");
    }
    let mut dir = output(&[]);
    dir.searched = vec![path(spot)];
    assert_eq!(last(&plans, &dir, false), report);
    assert_eq!(last(&plans, &dir, true), "rmtree out");
    let mut dir = output(&[]);
    dir.inside = vec![Inside { path: path(spot), kind: InsideKind::Link }];
    assert_eq!(last(&plans, &dir, false), link);
}

#[test]
fn a_report_is_told_to_be_one() {
    let text = report_text(&vec![], &vec![], &stats());
    assert!(shows_report(text.as_bytes()));
    assert!(shows_report(&report_start()));
    assert!(!shows_report(b""));
    assert!(!shows_report(&text.as_bytes()[1..]));
}

#[test]
fn directories_and_links_are_no_loss() {
    let plans = vec![plan(1, "/a/x", &["/b/x"])];
    let with = |kind: InsideKind| {
        let mut dir = output(&[]);
        dir.inside = vec![Inside { path: path("/w/out/thing"), kind }];
        last(&plans, &dir, true)
    };
    assert_eq!(with(InsideKind::Dir), "rmtree out");
    assert_eq!(with(InsideKind::Link), "rmtree out");
    assert_eq!(with(InsideKind::File), "report out/duplicate_report.txt");
    assert_eq!(with(InsideKind::Unknown), "report out/duplicate_report.txt");
    let mut dir = output(&[]);
    dir.searched = vec![path("/w/out/mine")];
    assert_eq!(last(&plans, &dir, true), "report out/duplicate_report.txt");
}

#[test]
fn the_report_is_not_written_over_an_original() {
    let plans = vec![plan(1, "/w/out/duplicate_report.txt", &["/b/x"])];
    let done = actions(&plans, &[], true);
    assert_eq!(done.last().unwrap(), "rmdir out/group_0001/duplicates");
    let done = actions(&plans, &[], false);
    assert_eq!(done.last().unwrap(), "report out/duplicate_report.txt");
}

#[test]
fn a_dry_run_does_nothing() {
    let plans = vec![plan(1, "/a/x", &["/b/x"])];
    let run = |delete: bool, dry: bool| {
        output_actions(&plans, &places(&[]), &output(&[]), delete, dry).len()
    };
    assert_eq!(run(true, true), 0);
    assert_eq!(run(false, true), 0);
    assert_eq!(run(false, false), 6);
    assert_eq!(run(true, false), 10);
}

#[test]
fn later_groups_have_longer_numbers() {
    let plans: Vec<GroupPlan> = (0..10_000u32).map(|_| plan(1, "/a", &[])).collect();
    let actions = organise(&plans, &places(&[]), &output(&[]), false);
    assert_eq!(described(&actions[1]), "mkdir out/group_0001/original");
    assert_eq!(described(&actions[1 + 3 * 9_999]), "mkdir out/group_10000/original");
}

#[test]
fn the_outcome_tells_whether_the_output_directory_stays() {
    let plans = vec![plan(1, "/a/x", &["/b/x"])];
    let outcome = |files: &[&str], delete: bool, dry: bool| {
        let actions = output_actions(&plans, &places(&[]), &output(files), delete, dry);
        outcome_of(&actions, path("out"), delete, dry)
    };
    assert!(matches!(outcome(&[], true, false), Outcome::Deleted));
    assert!(matches!(outcome(&["/w/out/mine"], true, false), Outcome::DeletedOnly(_)));
    assert!(matches!(outcome(&[], false, false), Outcome::Linked(_)));
    assert!(matches!(outcome(&[], true, true), Outcome::Previewed));
}

fn stats() -> Stats {
    Stats {
        total: 12,
        total_dupes: 3,
        inode_dupes: 1,
        wasted: 1536,
        byte_cmp_wins: 1,
        hash_ops: 9,
    }
}

#[test]
fn the_report_names_every_file() {
    let plans = vec![plan(0xab, "/a/x", &["/b/x", "/c/x"]), plan(0xcd, "/a/y", &["/b/y"])];
    let rule = "=".repeat(78);
    let expected = vec![
        rule.clone(),
        "FASTDEDUP — DUPLICATE REPORT (Rust)".to_string(),
        rule.clone(),
        "Total scanned    : 12".to_string(),
        "Duplicate groups : 2".to_string(),
        "Duplicate files  : 3".to_string(),
        "  (hard links)   : 1".to_string(),
        "Wasted space     : 1.50 KiB".to_string(),
        rule,
        "".to_string(),
        format!("── Group 1  (2.00 KiB)  hash: {}…", "ab".repeat(16)),
        "   ORIGINAL  : /a/x".to_string(),
        "   DUPLICATE : /b/x".to_string(),
        "   DUPLICATE : /c/x".to_string(),
        "".to_string(),
        format!("── Group 2  (0.00 B)  hash: {}…", "cd".repeat(16)),
        "   ORIGINAL  : /a/y".to_string(),
        "   DUPLICATE : /b/y".to_string(),
        "".to_string(),
    ];
    let sizes = vec![Some(2048), None];
    assert_eq!(report_lines(&plans, &sizes, &stats()), expected);
    assert_eq!(report_text(&plans, &sizes, &stats()), expected.join("\n"));
}

#[test]
fn lines_are_joined_with_newlines() {
    assert_eq!(join_lines(&vec![]), "");
    assert_eq!(join_lines(&vec!["a".to_string()]), "a");
    assert_eq!(join_lines(&vec!["a".to_string(), "".to_string(), "b".to_string()]), "a\n\nb");
    assert_eq!(short_hex(&digest(0x0f)), "0f".repeat(16));
}

#[test]
fn the_preview_names_every_file() {
    let plans = vec![plan(0xab, "/a/x", &["/b/x"])];
    assert_eq!(
        preview(&plans, &vec![Some(5)]),
        [
            "".to_string(),
            format!("── Group 1  5.00 B  {}…", "ab".repeat(16)),
            "   ORIGINAL  : /a/x".to_string(),
            "   DUPLICATE : /b/x".to_string(),
        ]
    );
}

#[test]
fn the_summary_says_what_became_of_the_duplicates() {
    let numbers = [
        "".to_string(),
        "━".repeat(55),
        "  Duplicate groups :          2".to_string(),
        "  Duplicate files  :          3".to_string(),
        "  Hard‑link dupes  :          1".to_string(),
        "  Byte‑cmp groups  :          1".to_string(),
        "  Wasted space     :       1.50 KiB".to_string(),
        "  Elapsed          :        1.5ms".to_string(),
    ];
    let previewed = summary(2, &stats(), "1.5ms", &Outcome::Previewed, false);
    assert_eq!(previewed[..8], numbers);
    assert_eq!(previewed[8..], [""]);
    let deleted = summary(2, &stats(), "1.5ms", &Outcome::Deleted, false);
    assert_eq!(deleted[..8], numbers);
    assert_eq!(
        deleted[8..],
        ["", "  ✓  Duplicates deleted. Review folder cleaned up.", ""]
    );
    let kept = summary(2, &stats(), "1.5ms", &Outcome::DeletedOnly(path("out")), false);
    assert_eq!(kept[..8], numbers);
    assert_eq!(
        kept[8..],
        [
            "  Output           : out",
            "",
            "  ✓  Duplicates deleted. Review folder kept: it holds other files.",
            "",
        ]
    );
    let linked = summary(2, &stats(), "1.5ms", &Outcome::Linked(path("out")), true);
    assert_eq!(linked[1], format!("\x1b[90m{}\x1b[0m", "━".repeat(55)));
    assert_eq!(
        linked[8..],
        [
            "  Output           : out",
            "",
            "  \x1b[90mReview symlinks, then re‑run with --delete\x1b[0m",
            "",
        ]
    );
}

#[test]
fn links_have_the_name_of_the_file_and_then_numbers() {
    assert_eq!(link_name(b"x.tar.gz", 0), b"x.tar.gz".to_vec());
    assert_eq!(link_name(b"x.tar.gz", 1), b"x.tar_1.gz".to_vec());
    assert_eq!(link_name(b"x", 12), b"x_12".to_vec());
    assert_eq!(link_name(b".hidden", 2), b".hidden_2".to_vec());
    assert_eq!(link_name(&[b'a', 0xff, b'.', b'b'], 0), vec![b'a', 0xff, b'.', b'b']);
    assert_eq!(link_name(&[b'a', 0xff, b'.', b'b'], 3), "a\u{fffd}_3.b".as_bytes().to_vec());
}

#[test]
fn numbered_names_are_all_different() {
    let mut names: Vec<Vec<u8>> = (0..2000u64).map(|n| link_name(b"x_1.txt", n)).collect();
    names.sort();
    names.dedup();
    assert_eq!(names.len(), 2000);
}

#[test]
fn a_link_that_is_there_is_not_made_again() {
    let dir = path("out/group_0001/original");
    assert!(symlink_to_dir(&path("/a/x"), &dir, &vec![path("/b/x"), path("/a//x")]).is_none());
    let mut search = symlink_to_dir(&path("/a/x.txt"), &dir, &vec![path("/b/x.txt")]).unwrap();
    assert_eq!(text(&search.candidate()), "out/group_0001/original/x.txt");
    assert!(search.advance());
    assert_eq!(text(&search.candidate()), "out/group_0001/original/x_1.txt");
    assert!(search.advance());
    assert_eq!(text(&search.candidate()), "out/group_0001/original/x_2.txt");
    search.attempt = u64::MAX;
    assert!(!search.advance());
}

#[test]
fn taken_names_are_skipped() {
    let dir = path("out");
    let taken = vec![b"x_1.txt".to_vec(), b"x.txt".to_vec(), b"y".to_vec()];
    let mut search = symlink_to_dir(&path("/a/x.txt"), &dir, &vec![]).unwrap();
    assert!(search.skip_taken(&taken));
    assert_eq!(text(&search.candidate()), "out/x_2.txt");
    let mut search = symlink_to_dir(&path("/a/z"), &dir, &vec![]).unwrap();
    assert!(search.skip_taken(&taken));
    assert_eq!(text(&search.candidate()), "out/z");
}

#[test]
fn the_links_to_a_file_are_removed() {
    let links = vec![
        (path("out/x"), path("/b/x")),
        (path("out/y"), path("/b/y")),
        (path("out/x_1"), path("/b//x")),
    ];
    assert_eq!(texts(&links_to_remove(&links, &path("/b/x"))), ["out/x", "out/x_1"]);
    assert!(links_to_remove(&links, &path("/b/z")).is_empty());
}
