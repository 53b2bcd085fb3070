//! The report, the preview and the summary of a search, as lines of text.

use crate::digest::{hex_text, Digest};
use crate::format::{
    coloured, decimal, decimal_text, dim, format_bytes, green, pad_left, padded, right_aligned,
    size_text,
};
use crate::lex::same_bytes;
use crate::organise::{plan_views, Action, GroupPlan, PlanView};
use crate::path::{path_views, FilePath};
use crate::stats::{known_size, Stats};
use crate::text::{lemma_encode_add, lossy_text, to_string_lossy};
use vstd::prelude::*;
use vstd::slice::slice_subrange;
use vstd::utf8::{decode_utf8, encode_utf8, valid_utf8};

verus! {

/// What lines stand for.
pub open spec fn line_views(s: Seq<String>) -> Seq<Seq<char>> {
    Seq::new(s.len(), |i: int| s[i]@)
}

/// Lines as one text, with a newline between them.
pub open spec fn joined_lines(lines: Seq<Seq<char>>) -> Seq<char>
    decreases lines.len(),
{
    if lines.len() == 0 {
        Seq::empty()
    } else if lines.len() == 1 {
        lines[0]
    } else {
        joined_lines(lines.drop_last()) + "\n"@ + lines.last()
    }
}

/// Lines as one text, with a newline between them.
pub fn join_lines(lines: &Vec<String>) -> (r: String)
    ensures
        r@ == joined_lines(line_views(lines@)),
{
    let ghost views = line_views(lines@);
    let mut r = String::new();
    let mut i: usize = 0;
    assert(views.take(0) =~= Seq::empty());
    assert(r@ =~= joined_lines(views.take(0)));
    while i < lines.len()
        invariant
            i <= lines@.len(),
            views == line_views(lines@),
            r@ == joined_lines(views.take(i as int)),
        decreases lines@.len() - i,
    {
        let ghost before = r@;
        proof {
            assert(views.take(i + 1).drop_last() =~= views.take(i as int));
            assert(views.take(i + 1).last() == lines@[i as int]@);
        }
        if i > 0 {
            r.append("\n");
        }
        r.append(lines[i].as_str());
        assert(r@ =~= joined_lines(views.take(i + 1)));
        i = i + 1;
    }
    assert(views.take(i as int) =~= views);
    r
}

fn push_line(lines: &mut Vec<String>, line: String)
    ensures
        line_views(final(lines)@) == line_views(old(lines)@).push(line@),
{
    let ghost before = line_views(lines@);
    lines.push(line);
    assert(line_views(lines@) =~= before.push(line@));
}

fn labelled(label: &str, text: &str) -> (r: String)
    ensures
        r@ == label@ + text@,
{
    let mut r = String::from_str(label);
    r.append(text);
    r
}

/// A path as text. A path that is UTF-8 gives the text that it encodes.
pub fn path_text(path: &FilePath) -> (r: String)
    ensures
        r@ == lossy_text(path@),
        valid_utf8(path@) ==> r@ == decode_utf8(path@),
{
    to_string_lossy(path.bytes.as_slice())
}

/// The first 32 hexadecimal digits of a digest.
pub fn short_hex(digest: &Digest) -> (r: String)
    ensures
        r@ == hex_text(digest@).take(32),
{
    let hex = digest.to_hex();
    let r = hex.as_str().substring_char(0, 32);
    assert(r@ =~= hex_text(digest@).take(32));
    String::from_str(r)
}

/// The first lines of the report.
pub open spec fn heading_lines(stats: Stats, groups: nat) -> Seq<Seq<char>> {
    let rule = padded(""@, 78, '=');
    seq![
        rule,
        "FASTDEDUP — DUPLICATE REPORT (Rust)"@,
        rule,
        "Total scanned    : "@ + decimal(stats.total as nat),
        "Duplicate groups : "@ + decimal(groups),
        "Duplicate files  : "@ + decimal(stats.total_dupes as nat),
        "  (hard links)   : "@ + decimal(stats.inode_dupes as nat),
        "Wasted space     : "@ + size_text(stats.wasted),
        rule,
        ""@,
    ]
}

/// The text that a report begins with.
pub open spec fn report_mark() -> Seq<char> {
    let rule = padded(""@, 78, '=');
    rule + "\n"@ + "FASTDEDUP — DUPLICATE REPORT (Rust)"@ + "\n"@ + rule + "\n"@
}

/// Whether bytes are those of a report: they begin as one.
pub open spec fn is_report(bytes: Seq<u8>) -> bool {
    encode_utf8(report_mark()).is_prefix_of(bytes)
}

/// Whether bytes are those of a report.
pub fn shows_report(bytes: &[u8]) -> (r: bool)
    ensures
        r == is_report(bytes@),
{
    proof {
        reveal_strlit("=");
    }
    let rule = pad_left("", 78, "=");
    let mut mark = String::from_str(rule.as_str());
    mark.append("\n");
    mark.append("FASTDEDUP — DUPLICATE REPORT (Rust)");
    mark.append("\n");
    mark.append(rule.as_str());
    mark.append("\n");
    assert(mark@ =~= report_mark());
    let start = mark.as_str().as_bytes();
    if bytes.len() < start.len() {
        return false;
    }
    let r = same_bytes(start, slice_subrange(bytes, 0, start.len()));
    assert(bytes@.subrange(0, start@.len() as int) == bytes@.take(start@.len() as int));
    r
}

proof fn lemma_joined_begins(lines: Seq<Seq<char>>, n: int)
    requires
        0 < n < lines.len(),
    ensures
        (joined_lines(lines.take(n)) + "\n"@).is_prefix_of(joined_lines(lines)),
    decreases lines.len(),
{
    let front = lines.drop_last();
    let start = joined_lines(lines.take(n)) + "\n"@;
    assert(joined_lines(lines) == joined_lines(front) + "\n"@ + lines.last());
    if n == front.len() {
        assert(lines.take(n) =~= front);
        assert(start =~= joined_lines(lines).subrange(0, start.len() as int));
    } else {
        lemma_joined_begins(front, n);
        assert(front.take(n) =~= lines.take(n));
        assert(joined_lines(front).subrange(0, start.len() as int) =~= joined_lines(lines).subrange(
            0,
            start.len() as int,
        ));
    }
}

/// Every report is told to be one.
pub proof fn lemma_report_is_recognised(stats: Stats, groups: nat, rest: Seq<Seq<char>>)
    ensures
        is_report(encode_utf8(joined_lines(heading_lines(stats, groups) + rest))),
{
    let lines = heading_lines(stats, groups) + rest;
    let text = joined_lines(lines);
    let mark = report_mark();
    let first = lines.take(3);
    lemma_joined_begins(lines, 3);
    assert(first.drop_last().drop_last() =~= seq![lines[0]]);
    assert(first.drop_last().last() == lines[1]);
    assert(first.last() == lines[2]);
    assert(joined_lines(first.drop_last().drop_last()) == lines[0]);
    assert(joined_lines(first.drop_last()) == lines[0] + "\n"@ + lines[1]);
    assert(joined_lines(first) == lines[0] + "\n"@ + lines[1] + "\n"@ + lines[2]);
    assert(joined_lines(first) + "\n"@ =~= mark);
    let tail = text.skip(mark.len() as int);
    assert(text =~= mark + tail);
    lemma_encode_add(mark, tail);
    assert(encode_utf8(mark) =~= encode_utf8(text).subrange(0, encode_utf8(mark).len() as int));
}

/// The lines that name the files of a group.
pub open spec fn file_lines(plan: PlanView) -> Seq<Seq<char>> {
    seq!["   ORIGINAL  : "@ + lossy_text(plan.original)] + Seq::new(
        plan.duplicates.len(),
        |j: int| "   DUPLICATE : "@ + lossy_text(plan.duplicates[j]),
    )
}

/// The lines of the report on the group at place `i`.
pub open spec fn group_lines(plan: PlanView, size: Option<u64>, i: int) -> Seq<Seq<char>> {
    seq![
        "── Group "@ + decimal((i + 1) as nat) + "  ("@ + size_text(known_size(size)) + ")  hash: "@
            + hex_text(plan.digest).take(32) + "…"@,
    ] + file_lines(plan) + seq![""@]
}

/// The lines of the preview of the group at place `i`.
pub open spec fn preview_lines(plan: PlanView, size: Option<u64>, i: int) -> Seq<Seq<char>> {
    seq![
        ""@,
        "── Group "@ + decimal((i + 1) as nat) + "  "@ + size_text(known_size(size)) + "  "@
            + hex_text(plan.digest).take(32) + "…"@,
    ] + file_lines(plan)
}

/// The lines of the report on the first `n` groups.
pub open spec fn report_upto(plans: Seq<PlanView>, sizes: Seq<Option<u64>>, n: int) -> Seq<
    Seq<char>,
>
    decreases n,
{
    if n <= 0 {
        Seq::empty()
    } else {
        report_upto(plans, sizes, n - 1) + group_lines(plans[n - 1], sizes[n - 1], n - 1)
    }
}

/// The lines of the preview of the first `n` groups.
pub open spec fn preview_upto(plans: Seq<PlanView>, sizes: Seq<Option<u64>>, n: int) -> Seq<
    Seq<char>,
>
    decreases n,
{
    if n <= 0 {
        Seq::empty()
    } else {
        preview_upto(plans, sizes, n - 1) + preview_lines(plans[n - 1], sizes[n - 1], n - 1)
    }
}

fn push_file_lines(lines: &mut Vec<String>, plan: &GroupPlan)
    ensures
        line_views(final(lines)@) == line_views(old(lines)@) + file_lines(plan@),
{
    let ghost before = line_views(lines@);
    let ghost planned = file_lines(plan@);
    push_line(lines, labelled("   ORIGINAL  : ", path_text(&plan.original).as_str()));
    assert(line_views(lines@) =~= before + planned.take(1));
    let mut j: usize = 0;
    while j < plan.duplicates.len()
        invariant
            j <= plan.duplicates@.len(),
            planned == file_lines(plan@),
            line_views(lines@) == before + planned.take(j + 1),
        decreases plan.duplicates@.len() - j,
    {
        push_line(lines, labelled("   DUPLICATE : ", path_text(&plan.duplicates[j]).as_str()));
        assert(line_views(lines@) =~= before + planned.take(j + 2)) by {
            assert(path_views(plan.duplicates@)[j as int] == plan.duplicates@[j as int]@);
            assert(planned[j + 1] == "   DUPLICATE : "@ + lossy_text(
                plan.duplicates@[j as int]@,
            ));
        }
        j = j + 1;
    }
    assert(planned.take(j + 1) =~= planned);
}

fn group_number(i: usize) -> (r: String)
    requires
        i < usize::MAX,
    ensures
        r@ == decimal((i + 1) as nat),
{
    decimal_text((i + 1) as u64)
}

fn size_or_nothing(size: Option<u64>) -> (r: u64)
    ensures
        r == known_size(size),
{
    match size {
        Some(n) => n,
        None => 0,
    }
}

fn push_heading(lines: &mut Vec<String>, stats: &Stats, groups: usize)
    ensures
        line_views(final(lines)@) == line_views(old(lines)@) + heading_lines(
            *stats,
            groups as nat,
        ),
{
    proof {
        reveal_strlit("=");
    }
    let ghost before = line_views(lines@);
    push_line(lines, pad_left("", 78, "="));
    push_line(lines, String::from_str("FASTDEDUP — DUPLICATE REPORT (Rust)"));
    push_line(lines, pad_left("", 78, "="));
    push_line(lines, labelled("Total scanned    : ", decimal_text(stats.total).as_str()));
    push_line(lines, labelled("Duplicate groups : ", decimal_text(groups as u64).as_str()));
    push_line(lines, labelled("Duplicate files  : ", decimal_text(stats.total_dupes).as_str()));
    push_line(lines, labelled("  (hard links)   : ", decimal_text(stats.inode_dupes).as_str()));
    push_line(lines, labelled("Wasted space     : ", format_bytes(stats.wasted).as_str()));
    push_line(lines, pad_left("", 78, "="));
    push_line(lines, String::from_str(""));
    assert(line_views(lines@) =~= before + heading_lines(*stats, groups as nat));
}

/// The lines of the report. `sizes` are the sizes of the originals, where they are
/// known.
pub fn report_lines(plans: &Vec<GroupPlan>, sizes: &Vec<Option<u64>>, stats: &Stats) -> (r: Vec<
    String,
>)
    requires
        sizes@.len() == plans@.len(),
    ensures
        line_views(r@) == heading_lines(*stats, plans@.len()) + report_upto(
            plan_views(plans@),
            sizes@,
            plans@.len() as int,
        ),
{
    let ghost views = plan_views(plans@);
    let mut r: Vec<String> = Vec::new();
    push_heading(&mut r, stats, plans.len());
    let ghost heading = heading_lines(*stats, plans@.len());
    assert(line_views(r@) =~= heading + report_upto(views, sizes@, 0));
    let mut i: usize = 0;
    while i < plans.len()
        invariant
            i <= plans@.len(),
            sizes@.len() == plans@.len(),
            views == plan_views(plans@),
            line_views(r@) == heading + report_upto(views, sizes@, i as int),
        decreases plans@.len() - i,
    {
        let plan = &plans[i];
        let ghost here = line_views(r@);
        let mut title = labelled("── Group ", group_number(i).as_str());
        title.append("  (");
        title.append(format_bytes(size_or_nothing(sizes[i])).as_str());
        title.append(")  hash: ");
        title.append(short_hex(&plan.digest).as_str());
        title.append("…");
        push_line(&mut r, title);
        push_file_lines(&mut r, plan);
        push_line(&mut r, String::from_str(""));
        proof {
            assert(views[i as int] == plan@);
            assert(line_views(r@) =~= here + group_lines(plan@, sizes@[i as int], i as int));
            assert(line_views(r@) =~= heading + report_upto(views, sizes@, i + 1));
        }
        i = i + 1;
    }
    r
}

/// The text of the report. `sizes` are the sizes of the originals, where they are
/// known.
pub fn report_text(plans: &Vec<GroupPlan>, sizes: &Vec<Option<u64>>, stats: &Stats) -> (r: String)
    requires
        sizes@.len() == plans@.len(),
    ensures
        r@ == joined_lines(
            heading_lines(*stats, plans@.len()) + report_upto(
                plan_views(plans@),
                sizes@,
                plans@.len() as int,
            ),
        ),
{
    join_lines(&report_lines(plans, sizes, stats))
}

/// The lines that are shown where nothing is to be written. `sizes` are the sizes of
/// the originals, where they are known.
pub fn preview(plans: &Vec<GroupPlan>, sizes: &Vec<Option<u64>>) -> (r: Vec<String>)
    requires
        sizes@.len() == plans@.len(),
    ensures
        line_views(r@) == preview_upto(plan_views(plans@), sizes@, plans@.len() as int),
{
    let ghost views = plan_views(plans@);
    let mut r: Vec<String> = Vec::new();
    assert(line_views(r@) =~= preview_upto(views, sizes@, 0));
    let mut i: usize = 0;
    while i < plans.len()
        invariant
            i <= plans@.len(),
            sizes@.len() == plans@.len(),
            views == plan_views(plans@),
            line_views(r@) == preview_upto(views, sizes@, i as int),
        decreases plans@.len() - i,
    {
        let plan = &plans[i];
        let ghost here = line_views(r@);
        let mut title = labelled("── Group ", group_number(i).as_str());
        title.append("  ");
        title.append(format_bytes(size_or_nothing(sizes[i])).as_str());
        title.append("  ");
        title.append(short_hex(&plan.digest).as_str());
        title.append("…");
        push_line(&mut r, String::from_str(""));
        push_line(&mut r, title);
        push_file_lines(&mut r, plan);
        proof {
            assert(views[i as int] == plan@);
            assert(line_views(r@) =~= here + preview_lines(plan@, sizes@[i as int], i as int));
            assert(line_views(r@) =~= preview_upto(views, sizes@, i + 1));
        }
        i = i + 1;
    }
    r
}

/// What became of the groups of duplicates.
pub enum Outcome {
    /// They were only shown.
    Previewed,
    /// The duplicates were deleted and the output directory was taken away.
    Deleted,
    /// The duplicates were deleted; the output directory stays.
    DeletedOnly(FilePath),
    /// Links to the files are in this directory.
    Linked(FilePath),
}

/// Tells what became of the groups of duplicates: `actions` is what was done with them,
/// and `output` the output directory.
pub fn outcome_of(actions: &Vec<Action>, output: FilePath, delete: bool, dry_run: bool) -> (r:
    Outcome)
    ensures
        r == if dry_run {
            Outcome::Previewed
        } else if !delete {
            Outcome::Linked(output)
        } else if exists|i: int|
            0 <= i < actions@.len() && (#[trigger] actions@[i]) is RemoveTree {
            Outcome::Deleted
        } else {
            Outcome::DeletedOnly(output)
        },
{
    if dry_run {
        return Outcome::Previewed;
    }
    if !delete {
        return Outcome::Linked(output);
    }
    let mut i: usize = 0;
    while i < actions.len()
        invariant
            i <= actions@.len(),
            !dry_run,
            delete,
            forall|j: int| 0 <= j < i ==> !((#[trigger] actions@[j]) is RemoveTree),
        decreases actions@.len() - i,
    {
        if let Action::RemoveTree(_) = &actions[i] {
            assert(actions@[i as int] is RemoveTree);
            return Outcome::Deleted;
        }
        i = i + 1;
    }
    Outcome::DeletedOnly(output)
}

/// The last lines of the summary.
pub open spec fn outcome_lines(outcome: Outcome, tty: bool) -> Seq<Seq<char>> {
    match outcome {
        Outcome::Previewed => seq![""@],
        Outcome::Deleted => seq![
            ""@,
            "  "@ + coloured(
                "\x1b[92m"@,
                "✓  Duplicates deleted. Review folder cleaned up."@,
                tty,
            ),
            ""@,
        ],
        Outcome::DeletedOnly(output) => seq![
            "  Output           : "@ + lossy_text(output@),
            ""@,
            "  "@ + coloured(
                "\x1b[92m"@,
                "✓  Duplicates deleted. Review folder kept: it holds other files."@,
                tty,
            ),
            ""@,
        ],
        Outcome::Linked(output) => seq![
            "  Output           : "@ + lossy_text(output@),
            ""@,
            "  "@ + coloured("\x1b[90m"@, "Review symlinks, then re‑run with --delete"@, tty),
            ""@,
        ],
    }
}

/// A label and a number, right-aligned in ten columns.
pub open spec fn number_line(label: Seq<char>, n: nat) -> Seq<char> {
    label + padded(decimal(n), 10, ' ')
}

/// The first lines of the summary.
pub open spec fn number_lines(
    groups: usize,
    dupes: u64,
    links: u64,
    compared: u64,
    wasted: u64,
    elapsed: Seq<char>,
    tty: bool,
) -> Seq<Seq<char>> {
    seq![
        ""@,
        coloured("\x1b[90m"@, padded(""@, 55, '━'), tty),
        number_line("  Duplicate groups : "@, groups as nat),
        number_line("  Duplicate files  : "@, dupes as nat),
        number_line("  Hard‑link dupes  : "@, links as nat),
        number_line("  Byte‑cmp groups  : "@, compared as nat),
        "  Wasted space     : "@ + padded(size_text(wasted), 14, ' '),
        "  Elapsed          : "@ + padded(elapsed, 12, ' '),
    ]
}

fn numbered_line(label: &str, n: u64) -> (r: String)
    ensures
        r@ == number_line(label@, n as nat),
{
    labelled(label, right_aligned(decimal_text(n).as_str(), 10).as_str())
}

fn group_count_line(label: &str, groups: usize) -> (r: String)
    ensures
        r@ == number_line(label@, groups as nat),
{
    numbered_line(label, groups as u64)
}

/// The lines of the summary of a search that took `elapsed`, with colours where they
/// go to a terminal.
pub fn summary(
    groups: usize,
    stats: &Stats,
    elapsed: &str,
    outcome: &Outcome,
    tty: bool,
) -> (r: Vec<String>)
    ensures
        line_views(r@) == number_lines(
            groups,
            stats.total_dupes,
            stats.inode_dupes,
            stats.byte_cmp_wins,
            stats.wasted,
            elapsed@,
            tty,
        ) + outcome_lines(*outcome, tty),
{
    proof {
        reveal_strlit("━");
    }
    let mut r: Vec<String> = Vec::new();
    push_line(&mut r, String::from_str(""));
    push_line(&mut r, dim(pad_left("", 55, "━").as_str(), tty));
    push_line(&mut r, group_count_line("  Duplicate groups : ", groups));
    push_line(&mut r, numbered_line("  Duplicate files  : ", stats.total_dupes));
    push_line(&mut r, numbered_line("  Hard‑link dupes  : ", stats.inode_dupes));
    push_line(&mut r, numbered_line("  Byte‑cmp groups  : ", stats.byte_cmp_wins));
    push_line(
        &mut r,
        labelled(
            "  Wasted space     : ",
            right_aligned(format_bytes(stats.wasted).as_str(), 14).as_str(),
        ),
    );
    push_line(&mut r, labelled("  Elapsed          : ", right_aligned(elapsed, 12).as_str()));
    let ghost numbers = number_lines(
        groups,
        stats.total_dupes,
        stats.inode_dupes,
        stats.byte_cmp_wins,
        stats.wasted,
        elapsed@,
        tty,
    );
    assert(line_views(r@) =~= numbers);
    match outcome {
        Outcome::Previewed => {},
        Outcome::Deleted => {
            push_line(&mut r, String::from_str(""));
            push_line(
                &mut r,
                labelled(
                    "  ",
                    green("✓  Duplicates deleted. Review folder cleaned up.", tty).as_str(),
                ),
            );
        },
        Outcome::DeletedOnly(output) => {
            push_line(&mut r, labelled("  Output           : ", path_text(output).as_str()));
            push_line(&mut r, String::from_str(""));
            push_line(
                &mut r,
                labelled(
                    "  ",
                    green(
                        "✓  Duplicates deleted. Review folder kept: it holds other files.",
                        tty,
                    ).as_str(),
                ),
            );
        },
        Outcome::Linked(output) => {
            push_line(&mut r, labelled("  Output           : ", path_text(output).as_str()));
            push_line(&mut r, String::from_str(""));
            push_line(
                &mut r,
                labelled("  ", dim("Review symlinks, then re‑run with --delete", tty).as_str()),
            );
        },
    }
    push_line(&mut r, String::from_str(""));
    assert(line_views(r@) =~= numbers + outcome_lines(*outcome, tty));
    r
}

} // verus!
