//! What the report, the preview and the summary say, line by line.

use crate::digest::hex_text;
use crate::format::{decimal, padded, size_text};
use crate::organise::PlanView;
use crate::path::FilePath;
use crate::report::{
    file_lines, group_lines, heading_lines, is_report, joined_lines, number_lines, outcome_lines,
    preview_lines, preview_upto, report_upto, Outcome,
};
use crate::stats::Stats;
use crate::text::lossy_text;
use vstd::prelude::*;
use vstd::utf8::encode_utf8;

verus! {

/// How many lines are taken up by the groups before the one at place `i`: three for each,
/// and one more for each of its duplicates.
pub open spec fn lines_before(plans: Seq<PlanView>, i: int) -> int
    decreases i,
{
    if i <= 0 {
        0
    } else {
        lines_before(plans, i - 1) + 3 + plans[i - 1].duplicates.len()
    }
}

proof fn lemma_lines_before(plans: Seq<PlanView>, i: int)
    ensures
        lines_before(plans, i) >= 0,
    decreases i,
{
    if i > 0 {
        lemma_lines_before(plans, i - 1);
    }
}

proof fn lemma_preview_upto(plans: Seq<PlanView>, sizes: Seq<Option<u64>>, n: int, i: int)
    requires
        0 <= i <= n <= plans.len(),
    ensures
        preview_upto(plans, sizes, n).len() == lines_before(plans, n),
        lines_before(plans, i) <= lines_before(plans, n),
        i < n ==> lines_before(plans, i) + 3 + plans[i].duplicates.len() <= lines_before(plans, n),
        i < n ==> forall|k: int|
            0 <= k < 3 + plans[i].duplicates.len() ==> #[trigger] preview_upto(
                plans,
                sizes,
                n,
            )[lines_before(plans, i) + k] == preview_lines(plans[i], sizes[i], i)[k],
    decreases n,
{
    if n > 0 {
        let before = preview_upto(plans, sizes, n - 1);
        let all = preview_upto(plans, sizes, n);
        let here = preview_lines(plans[n - 1], sizes[n - 1], n - 1);
        assert(here.len() == 3 + plans[n - 1].duplicates.len());
        if i < n {
            lemma_preview_upto(plans, sizes, n - 1, i);
            lemma_lines_before(plans, i);
            if i < n - 1 {
                assert forall|k: int| 0 <= k < 3 + plans[i].duplicates.len() implies #[trigger] all[
                lines_before(plans, i) + k] == preview_lines(plans[i], sizes[i], i)[k] by {
                    assert(before[lines_before(plans, i) + k] == preview_lines(
                        plans[i],
                        sizes[i],
                        i,
                    )[k]);
                }
            }
        } else {
            lemma_preview_upto(plans, sizes, n - 1, n - 1);
        }
    }
}

/// The preview shows every group, one after the other: an empty line, a title with the
/// number of the group, its size and the beginning of its digest, a line with the path of
/// its original, and one for each of its duplicates, in their order. There is no other
/// line.
pub proof fn lemma_preview_shows_every_group(
    plans: Seq<PlanView>,
    sizes: Seq<Option<u64>>,
    i: int,
)
    requires
        sizes.len() == plans.len(),
        0 <= i < plans.len(),
    ensures
        ({
            let lines = preview_upto(plans, sizes, plans.len() as int);
            let start = lines_before(plans, i);
            let size = if sizes[i] is Some {
                sizes[i]->0
            } else {
                0
            };
            &&& lines.len() == lines_before(plans, plans.len() as int)
            &&& 0 <= start && start + 3 + plans[i].duplicates.len() <= lines.len()
            &&& lines[start] == ""@
            &&& lines[start + 1] == "── Group "@ + decimal((i + 1) as nat) + "  "@ + size_text(size)
                + "  "@ + hex_text(plans[i].digest).take(32) + "…"@
            &&& lines[start + 2] == "   ORIGINAL  : "@ + lossy_text(plans[i].original)
            &&& forall|d: int|
                #![trigger plans[i].duplicates[d]]
                0 <= d < plans[i].duplicates.len() ==> lines[start + 3 + d] == "   DUPLICATE : "@
                    + lossy_text(plans[i].duplicates[d])
        }),
{
    let n = plans.len() as int;
    let lines = preview_upto(plans, sizes, n);
    let start = lines_before(plans, i);
    let here = preview_lines(plans[i], sizes[i], i);
    let files = file_lines(plans[i]);
    lemma_preview_upto(plans, sizes, n, i);
    lemma_preview_upto(plans, sizes, i, 0);
    assert(lines[start + 0] == here[0]);
    assert(lines[start + 1] == here[1]);
    assert(lines[start + 2] == here[2]);
    assert(here[2] == files[0]);
    assert forall|d: int|
        #![trigger plans[i].duplicates[d]]
        0 <= d < plans[i].duplicates.len() implies lines[start + 3 + d] == "   DUPLICATE : "@
        + lossy_text(plans[i].duplicates[d]) by {
        assert(lines[start + (3 + d)] == here[3 + d]);
        assert(here[3 + d] == files[1 + d]);
    }
}

proof fn lemma_report_upto(plans: Seq<PlanView>, sizes: Seq<Option<u64>>, n: int, i: int)
    requires
        0 <= i <= n <= plans.len(),
    ensures
        report_upto(plans, sizes, n).len() == lines_before(plans, n),
        lines_before(plans, i) <= lines_before(plans, n),
        i < n ==> lines_before(plans, i) + 3 + plans[i].duplicates.len() <= lines_before(plans, n),
        i < n ==> forall|k: int|
            0 <= k < 3 + plans[i].duplicates.len() ==> #[trigger] report_upto(
                plans,
                sizes,
                n,
            )[lines_before(plans, i) + k] == group_lines(plans[i], sizes[i], i)[k],
    decreases n,
{
    if n > 0 {
        let before = report_upto(plans, sizes, n - 1);
        let all = report_upto(plans, sizes, n);
        let here = group_lines(plans[n - 1], sizes[n - 1], n - 1);
        assert(here.len() == 3 + plans[n - 1].duplicates.len());
        if i < n {
            lemma_report_upto(plans, sizes, n - 1, i);
            lemma_lines_before(plans, i);
            if i < n - 1 {
                assert forall|k: int| 0 <= k < 3 + plans[i].duplicates.len() implies #[trigger] all[
                lines_before(plans, i) + k] == group_lines(plans[i], sizes[i], i)[k] by {
                    assert(before[lines_before(plans, i) + k] == group_lines(
                        plans[i],
                        sizes[i],
                        i,
                    )[k]);
                }
            }
        } else {
            lemma_report_upto(plans, sizes, n - 1, n - 1);
        }
    }
}

/// Behind its heading, the report tells of every group, one after the other: a title with
/// the number of the group, its size and the beginning of its digest, a line with the path
/// of its original, one for each of its duplicates, in their order, and an empty line.
/// There is no other line.
pub proof fn lemma_report_tells_of_every_group(
    plans: Seq<PlanView>,
    sizes: Seq<Option<u64>>,
    i: int,
)
    requires
        sizes.len() == plans.len(),
        0 <= i < plans.len(),
    ensures
        ({
            let lines = report_upto(plans, sizes, plans.len() as int);
            let start = lines_before(plans, i);
            let dups = plans[i].duplicates;
            let size = if sizes[i] is Some {
                sizes[i]->0
            } else {
                0
            };
            &&& lines.len() == lines_before(plans, plans.len() as int)
            &&& 0 <= start && start + 3 + dups.len() <= lines.len()
            &&& lines[start] == "── Group "@ + decimal((i + 1) as nat) + "  ("@ + size_text(size)
                + ")  hash: "@ + hex_text(plans[i].digest).take(32) + "…"@
            &&& lines[start + 1] == "   ORIGINAL  : "@ + lossy_text(plans[i].original)
            &&& forall|d: int|
                #![trigger dups[d]]
                0 <= d < dups.len() ==> lines[start + 2 + d] == "   DUPLICATE : "@ + lossy_text(
                    dups[d],
                )
            &&& lines[start + 2 + dups.len()] == ""@
        }),
{
    let n = plans.len() as int;
    let lines = report_upto(plans, sizes, n);
    let start = lines_before(plans, i);
    let dups = plans[i].duplicates;
    let here = group_lines(plans[i], sizes[i], i);
    let files = file_lines(plans[i]);
    lemma_report_upto(plans, sizes, n, i);
    lemma_report_upto(plans, sizes, i, 0);
    assert(lines[start + 0] == here[0]);
    assert(lines[start + 1] == here[1]);
    assert(here[1] == files[0]);
    assert forall|d: int|
        #![trigger dups[d]]
        0 <= d < dups.len() implies lines[start + 2 + d] == "   DUPLICATE : "@ + lossy_text(
        dups[d],
    ) by {
        assert(lines[start + (2 + d)] == here[2 + d]);
        assert(here[2 + d] == files[1 + d]);
    }
    assert(lines[start + (2 + dups.len())] == here[2 + dups.len() as int]);
}

/// A report begins with ten lines: its title between two rules of 78 equals signs, the
/// numbers of the search, each behind its label, a third rule, and an empty line.
pub proof fn lemma_report_heading(stats: Stats, groups: nat)
    ensures
        ({
            let lines = heading_lines(stats, groups);
            &&& lines.len() == 10
            &&& forall|r: int|
                #![trigger lines[r]]
                (r == 0 || r == 2 || r == 8) ==> lines[r].len() == 78 && forall|c: int|
                    0 <= c < 78 ==> #[trigger] lines[r][c] == '='
            &&& lines[1] == "FASTDEDUP — DUPLICATE REPORT (Rust)"@
            &&& lines[3] == "Total scanned    : "@ + decimal(stats.total as nat)
            &&& lines[4] == "Duplicate groups : "@ + decimal(groups)
            &&& lines[5] == "Duplicate files  : "@ + decimal(stats.total_dupes as nat)
            &&& lines[6] == "  (hard links)   : "@ + decimal(stats.inode_dupes as nat)
            &&& lines[7] == "Wasted space     : "@ + size_text(stats.wasted)
            &&& lines[9] == ""@
        }),
{
    reveal_strlit("");
    let rule = padded(""@, 78, '=');
    assert(rule.len() == 78);
}

/// Bytes are those of a report exactly where they begin with its title between two rules
/// of 78 equals signs, each line ended by a newline.
pub proof fn lemma_report_begins(bytes: Seq<u8>, rule: Seq<char>)
    requires
        rule.len() == 78,
        forall|c: int| 0 <= c < 78 ==> #[trigger] rule[c] == '=',
    ensures
        is_report(bytes) <==> encode_utf8(
            rule + "\n"@ + "FASTDEDUP — DUPLICATE REPORT (Rust)"@ + "\n"@ + rule + "\n"@,
        ).is_prefix_of(bytes),
{
    reveal_strlit("");
    assert(rule =~= padded(""@, 78, '='));
}

/// Lines are put together with a newline between them: two lists of lines give their two
/// texts with a newline between, one line gives itself, and none gives nothing.
pub proof fn lemma_joined_lines(a: Seq<Seq<char>>, b: Seq<Seq<char>>, line: Seq<char>)
    ensures
        joined_lines(Seq::<Seq<char>>::empty()) == Seq::<char>::empty(),
        joined_lines(seq![line]) == line,
        a.len() > 0 && b.len() > 0 ==> joined_lines(a + b) == joined_lines(a) + seq!['\n']
            + joined_lines(b),
    decreases b.len(),
{
    reveal_strlit("\n");
    assert("\n"@ =~= seq!['\n']);
    if a.len() > 0 && b.len() > 0 {
        let front = b.drop_last();
        assert((a + b).drop_last() =~= a + front);
        if front.len() == 0 {
            assert(a + front =~= a);
            assert(joined_lines(b) == b.last());
            assert(joined_lines(a + b) =~= joined_lines(a) + seq!['\n'] + joined_lines(b));
        } else {
            lemma_joined_lines(a, front, line);
            assert(joined_lines(a + b) =~= joined_lines(a) + seq!['\n'] + joined_lines(b));
        }
    }
}

/// The summary begins with eight lines: an empty one, a rule of 55 strokes, and the
/// numbers of the search, each behind its label and aligned to the right.
pub proof fn lemma_summary_numbers(
    groups: usize,
    dupes: u64,
    links: u64,
    compared: u64,
    wasted: u64,
    elapsed: Seq<char>,
    tty: bool,
    rule: Seq<char>,
)
    requires
        rule.len() == 55,
        forall|c: int| 0 <= c < 55 ==> #[trigger] rule[c] == '━',
    ensures
        ({
            let lines = number_lines(groups, dupes, links, compared, wasted, elapsed, tty);
            &&& lines.len() == 8
            &&& lines[0] == ""@
            &&& lines[1] == if tty {
                "\x1b[90m"@ + rule + "\x1b[0m"@
            } else {
                rule
            }
            &&& lines[2] == "  Duplicate groups : "@ + padded(decimal(groups as nat), 10, ' ')
            &&& lines[3] == "  Duplicate files  : "@ + padded(decimal(dupes as nat), 10, ' ')
            &&& lines[4] == "  Hard‑link dupes  : "@ + padded(decimal(links as nat), 10, ' ')
            &&& lines[5] == "  Byte‑cmp groups  : "@ + padded(decimal(compared as nat), 10, ' ')
            &&& lines[6] == "  Wasted space     : "@ + padded(size_text(wasted), 14, ' ')
            &&& lines[7] == "  Elapsed          : "@ + padded(elapsed, 12, ' ')
        }),
{
    reveal_strlit("");
    assert(rule =~= padded(""@, 55, '━'));
}

/// The summary ends with what became of the groups: where the output directory stays, its
/// path is named; where something was done, a line says what; and an empty line ends it.
pub proof fn lemma_summary_ends(output: FilePath, tty: bool)
    ensures
        outcome_lines(Outcome::Previewed, tty) == seq![""@],
        outcome_lines(Outcome::Deleted, tty) == seq![
            ""@,
            if tty {
                "  "@ + ("\x1b[92m"@ + "✓  Duplicates deleted. Review folder cleaned up."@
                    + "\x1b[0m"@)
            } else {
                "  "@ + "✓  Duplicates deleted. Review folder cleaned up."@
            },
            ""@,
        ],
        outcome_lines(Outcome::DeletedOnly(output), tty) == seq![
            "  Output           : "@ + lossy_text(output@),
            ""@,
            if tty {
                "  "@ + ("\x1b[92m"@
                    + "✓  Duplicates deleted. Review folder kept: it holds other files."@
                    + "\x1b[0m"@)
            } else {
                "  "@ + "✓  Duplicates deleted. Review folder kept: it holds other files."@
            },
            ""@,
        ],
        outcome_lines(Outcome::Linked(output), tty) == seq![
            "  Output           : "@ + lossy_text(output@),
            ""@,
            if tty {
                "  "@ + ("\x1b[90m"@ + "Review symlinks, then re‑run with --delete"@ + "\x1b[0m"@)
            } else {
                "  "@ + "Review symlinks, then re‑run with --delete"@
            },
            ""@,
        ],
{
}

} // verus!
