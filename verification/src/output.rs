//! The output directory: what lies in it, and which of that must not be lost.

use crate::path::{join, path_views, same_path, FilePath};
use crate::report::{is_report, shows_report};
use vstd::prelude::*;
use vstd::utf8::encode_utf8;

verus! {

/// What kind of thing lies in a directory; `Unknown` where that could not be told.
pub enum InsideKind {
    Dir,
    Link,
    File,
    Unknown,
}

/// A thing that lies in the output directory, by its resolved path.
pub struct Inside {
    pub path: FilePath,
    pub kind: InsideKind,
}

/// The output directory: its path, its resolved path, the resolved paths of the files
/// that were searched, what lies in the directory, and how the file at the place of the
/// report begins, where there is one that can be read.
pub struct OutputDir {
    pub path: FilePath,
    pub place: FilePath,
    pub searched: Vec<FilePath>,
    pub inside: Vec<Inside>,
    pub report: Option<Vec<u8>>,
}

/// Where the report is.
pub open spec fn report_path(output: Seq<u8>) -> Seq<u8> {
    join(output, encode_utf8("duplicate_report.txt"@))
}

/// Where the report is, below the given directory.
pub fn report_below(output: &FilePath) -> (r: FilePath)
    ensures
        r@ == report_path(output@),
{
    output.join("duplicate_report.txt".as_bytes())
}

/// Whether a thing would be a loss: a directory or a link holds nothing of its own.
pub open spec fn counts(thing: Inside) -> bool {
    thing.kind is File || thing.kind is Unknown
}

/// The paths of the things that would be a loss.
pub open spec fn counted(inside: Seq<Inside>) -> Seq<Seq<u8>>
    decreases inside.len(),
{
    if inside.len() == 0 {
        Seq::empty()
    } else if counts(inside.last()) {
        counted(inside.drop_last()).push(inside.last().path@)
    } else {
        counted(inside.drop_last())
    }
}

/// The files that must not be lost: those that were searched, and what lies in the output
/// directory.
pub open spec fn files_at_stake(output: OutputDir) -> Seq<Seq<u8>> {
    path_views(output.searched@) + counted(output.inside@)
}

/// Gathers the files that must not be lost.
pub fn gather_files(output: &OutputDir) -> (r: Vec<FilePath>)
    ensures
        path_views(r@) == files_at_stake(*output),
{
    let ghost searched = path_views(output.searched@);
    let mut r: Vec<FilePath> = Vec::new();
    let mut i: usize = 0;
    while i < output.searched.len()
        invariant
            i <= output.searched@.len(),
            searched == path_views(output.searched@),
            r@.len() == i,
            forall|j: int| 0 <= j < i ==> (#[trigger] r@[j])@ == searched[j],
        decreases output.searched@.len() - i,
    {
        r.push(output.searched[i].clone());
        i = i + 1;
    }
    assert(path_views(r@) =~= searched);
    let mut i: usize = 0;
    assert(output.inside@.take(0) =~= Seq::empty());
    assert(searched + counted(output.inside@.take(0)) =~= searched);
    while i < output.inside.len()
        invariant
            i <= output.inside@.len(),
            path_views(r@) == searched + counted(output.inside@.take(i as int)),
        decreases output.inside@.len() - i,
    {
        let ghost before = path_views(r@);
        proof {
            assert(output.inside@.take(i + 1).drop_last() =~= output.inside@.take(i as int));
            assert(output.inside@.take(i + 1).last() == output.inside@[i as int]);
        }
        let loss = match output.inside[i].kind {
            InsideKind::File => true,
            InsideKind::Unknown => true,
            _ => false,
        };
        if loss {
            r.push(output.inside[i].path.clone());
            assert(path_views(r@) =~= before.push(output.inside@[i as int].path@));
        }
        assert(path_views(r@) =~= searched + counted(output.inside@.take(i + 1)));
        i = i + 1;
    }
    assert(output.inside@.take(i as int) =~= output.inside@);
    r
}

/// Whether the file at the place of the report is the report of an earlier run.
pub open spec fn has_earlier_report(output: OutputDir) -> bool {
    match output.report {
        Some(bytes) => is_report(bytes@),
        None => false,
    }
}

/// Whether the report of an earlier run, or nothing, is at the place of the report.
pub open spec fn report_is_free(output: OutputDir) -> bool {
    &&& forall|i: int|
        0 <= i < output.searched@.len() && same_path(
            (#[trigger] output.searched@[i])@,
            report_path(output.place@),
        ) ==> has_earlier_report(output)
    &&& forall|i: int|
        0 <= i < output.inside@.len() && same_path(
            (#[trigger] output.inside@[i]).path@,
            report_path(output.place@),
        ) ==> output.inside@[i].kind is File && has_earlier_report(output)
}

/// Whether the file at the place of the report is the report of an earlier run.
pub fn finds_earlier_report(output: &OutputDir) -> (r: bool)
    ensures
        r == has_earlier_report(*output),
{
    match &output.report {
        Some(bytes) => shows_report(bytes.as_slice()),
        None => false,
    }
}

/// Whether the report of an earlier run, or nothing, is at the place of the report.
pub fn can_take_report(output: &OutputDir) -> (r: bool)
    ensures
        r == report_is_free(*output),
{
    let spot = report_below(&output.place);
    let earlier = finds_earlier_report(output);
    let mut i: usize = 0;
    while i < output.searched.len()
        invariant
            i <= output.searched@.len(),
            spot@ == report_path(output.place@),
            earlier == has_earlier_report(*output),
            forall|j: int|
                0 <= j < i && same_path((#[trigger] output.searched@[j])@, spot@) ==> earlier,
        decreases output.searched@.len() - i,
    {
        if output.searched[i].same(&spot) && !earlier {
            return false;
        }
        i = i + 1;
    }
    let mut i: usize = 0;
    while i < output.inside.len()
        invariant
            i <= output.inside@.len(),
            spot@ == report_path(output.place@),
            earlier == has_earlier_report(*output),
            forall|j: int|
                0 <= j < i && same_path((#[trigger] output.inside@[j]).path@, spot@)
                    ==> output.inside@[j].kind is File && earlier,
        decreases output.inside@.len() - i,
    {
        let thing = &output.inside[i];
        if thing.path.same(&spot) {
            let file = match thing.kind {
                InsideKind::File => true,
                _ => false,
            };
            if !(file && earlier) {
                return false;
            }
        }
        i = i + 1;
    }
    true
}

proof fn lemma_counted(inside: Seq<Inside>, i: int)
    requires
        0 <= i < counted(inside).len(),
    ensures
        exists|j: int|
            0 <= j < inside.len() && counts(#[trigger] inside[j]) && inside[j].path@ == counted(
                inside,
            )[i],
    decreases inside.len(),
{
    let front = inside.drop_last();
    let last = inside.len() - 1;
    if i < counted(front).len() {
        lemma_counted(front, i);
        let j = choose|j: int|
            0 <= j < front.len() && counts(#[trigger] front[j]) && front[j].path@ == counted(
                front,
            )[i];
        assert(counts(inside[j]));
    } else {
        assert(counts(inside[last]));
    }
}

/// Where the place of the report is free, a file that must not be lost is there only if it
/// is the report of an earlier run.
pub proof fn lemma_report_is_free(output: OutputDir, i: int)
    requires
        report_is_free(output),
        0 <= i < files_at_stake(output).len(),
        same_path(files_at_stake(output)[i], report_path(output.place@)),
    ensures
        has_earlier_report(output),
{
    let n = output.searched@.len() as int;
    if i < n {
        assert(files_at_stake(output)[i] == output.searched@[i]@);
    } else {
        lemma_counted(output.inside@, i - n);
        let j = choose|j: int|
            0 <= j < output.inside@.len() && counts(#[trigger] output.inside@[j])
                && output.inside@[j].path@ == counted(output.inside@)[i - n];
        assert(same_path(output.inside@[j].path@, report_path(output.place@)));
    }
}

} // verus!
