//! What the values of the library stand for: each list, and each thing in it, one for one
//! and in full.

use crate::compare::group_views;
use crate::digest::Digest;
use crate::entry::{records, FileEntry, FileRecord};
use crate::filter::SizeGroup;
use crate::order::{keyed, keyed_groups, SortKey};
use crate::organise::{action_views, plan_views, Action, ActionView, GroupPlan, PlanView};
use crate::path::{part_views, path_views, Component, FilePath, Part, PathKey};
use crate::pipeline::{digest_groups, partial_views, PartialGroup};
use crate::report::line_views;
use crate::resolve::size_group_views;
use vstd::prelude::*;

verus! {

/// A path stands for its bytes.
pub proof fn lemma_paths(s: Seq<FilePath>)
    ensures
        path_views(s) == s.map_values(|p: FilePath| p.bytes@),
{
    assert(path_views(s) =~= s.map_values(|p: FilePath| p.bytes@));
}

/// A key stands for the components that its parts are.
pub proof fn lemma_parts(key: PathKey, i: int)
    ensures
        key.value().len() == key.parts@.len(),
        0 <= i < key.parts@.len() ==> key.value()[i] == match key.parts@[i] {
            Part::RootDir => Component::RootDir,
            Part::CurDir => Component::CurDir,
            Part::ParentDir => Component::ParentDir,
            Part::Normal(name) => Component::Normal(name@),
        },
        part_views(key.parts@) == key.value(),
{
}

/// An entry stands for its fields.
pub proof fn lemma_entries(s: Seq<FileEntry>, i: int)
    ensures
        records(s).len() == s.len(),
        0 <= i < s.len() ==> records(s)[i] == (FileRecord {
            path: s[i].path.bytes@,
            resolved: s[i].resolved.bytes@,
            dev: s[i].dev,
            ino: s[i].ino,
            size: s[i].size,
            on_hdd: s[i].on_hdd,
        }),
{
}

/// A group with its original told from the others stands for its digest, the bytes of its
/// original, and those of each of its duplicates.
pub proof fn lemma_plans(s: Seq<GroupPlan>, i: int)
    ensures
        plan_views(s).len() == s.len(),
        0 <= i < s.len() ==> plan_views(s)[i] == (PlanView {
            digest: s[i].digest.bytes@,
            original: s[i].original.bytes@,
            duplicates: s[i].duplicates@.map_values(|p: FilePath| p.bytes@),
        }),
{
    if 0 <= i < s.len() {
        lemma_paths(s[i].duplicates@);
    }
}

/// An action stands for itself with the bytes of its paths.
pub proof fn lemma_actions(s: Seq<Action>, i: int)
    ensures
        action_views(s).len() == s.len(),
        0 <= i < s.len() ==> action_views(s)[i] == match s[i] {
            Action::CreateDir(p) => ActionView::CreateDir(p.bytes@),
            Action::Link(p, d) => ActionView::Link(p.bytes@, d.bytes@),
            Action::DeleteSource(p) => ActionView::DeleteSource(p.bytes@),
            Action::RemoveLinks(p, d) => ActionView::RemoveLinks(p.bytes@, d.bytes@),
            Action::RemoveEmptyDir(p) => ActionView::RemoveEmptyDir(p.bytes@),
            Action::WriteReport(p) => ActionView::WriteReport(p.bytes@),
            Action::RemoveTree(p) => ActionView::RemoveTree(p.bytes@),
        },
{
}

/// A line stands for its characters.
pub proof fn lemma_lines(s: Seq<String>)
    ensures
        line_views(s) == s.map_values(|line: String| line@),
{
    assert(line_views(s) =~= s.map_values(|line: String| line@));
}

/// A group of paths stands for the bytes of each.
pub proof fn lemma_groups(s: Seq<Vec<FilePath>>, i: int)
    ensures
        group_views(s).len() == s.len(),
        0 <= i < s.len() ==> group_views(s)[i] == s[i]@.map_values(|p: FilePath| p.bytes@),
{
    if 0 <= i < s.len() {
        lemma_paths(s[i]@);
    }
}

/// A group of paths under a digest stands for the bytes of the digest and of each path.
pub proof fn lemma_digest_groups(s: Seq<(Digest, Vec<FilePath>)>, i: int)
    ensures
        digest_groups(s).len() == s.len(),
        0 <= i < s.len() ==> digest_groups(s)[i].0 == s[i].0.bytes@ && digest_groups(s)[i].1
            == s[i].1@.map_values(|p: FilePath| p.bytes@),
        keyed(s).len() == s.len(),
        0 <= i < s.len() ==> keyed(s)[i] == (s[i].0.bytes@, s[i].1),
{
    if 0 <= i < s.len() {
        lemma_paths(s[i].1@);
    }
}

/// A group of files of one size stands for the size and the records of its files.
pub proof fn lemma_size_groups(s: Seq<SizeGroup>, i: int)
    ensures
        size_group_views(s).len() == s.len(),
        0 <= i < s.len() ==> size_group_views(s)[i].0 == s[i].size && size_group_views(s)[i].1
            == records(s[i].entries@),
{
}

/// A group of files that were sampled alike stands for its size, its digest and the places
/// of its files.
pub proof fn lemma_partial_groups(s: Seq<PartialGroup>, i: int)
    ensures
        partial_views(s).len() == s.len(),
        0 <= i < s.len() ==> partial_views(s)[i] == (
            (s[i].size, s[i].digest.bytes@),
            s[i].members@,
        ),
{
}

/// Pairs stand for the values of their keys with what is paired with them, and groups for
/// the values of their keys with what is in them.
pub proof fn lemma_keyed<K: SortKey, V>(s: Seq<(K, V)>, groups: Seq<(K, Vec<V>)>)
    ensures
        keyed(s) == s.map_values(|p: (K, V)| (p.0.value(), p.1)),
        keyed_groups(groups) == groups.map_values(|g: (K, Vec<V>)| (g.0.value(), g.1@)),
{
    assert(keyed(s) =~= s.map_values(|p: (K, V)| (p.0.value(), p.1)));
    assert(keyed_groups(groups) =~= groups.map_values(|g: (K, Vec<V>)| (g.0.value(), g.1@)));
}

} // verus!
