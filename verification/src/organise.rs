//! What is done with the groups of duplicates: a tree of links, a report, and, where
//! it is asked for, deletion.

use crate::digest::{char_order, hex_text, lemma_hex_order, Digest};
use crate::format::{decimal, padded, zero_padded};
use crate::lex::lex_le;
use crate::order::{keyed, latest, lemma_values_at_occurs, sorted, SortKey, Table};
use crate::output::{
    can_take_report, files_at_stake, finds_earlier_report, gather_files, has_earlier_report,
    lemma_report_is_free, report_below, report_is_free, report_path, OutputDir,
};
use crate::path::{
    components, join, lemma_join_starts_with, lemma_same_path, lemma_starts_with_transitive,
    path_starts_with, path_views, same_path, FilePath, PathKey, SLASH,
};
use crate::place::{place, place_of, PlaceTable};
use crate::resolve::DuplicateGroups;
use crate::select::{lemma_original_keeps_paths, original_of, pick_original};
use vstd::prelude::*;
use vstd::seq_lib::lemma_seq_concat_contains_all_elements;
use vstd::utf8::{encode_scalar, encode_utf8, is_ascii_chars_encode_utf8};

verus! {

/// A group of duplicates: its digest, the file that stays, and the others.
pub struct GroupPlan {
    pub digest: Digest,
    pub original: FilePath,
    pub duplicates: Vec<FilePath>,
}

/// What a group of duplicates stands for.
pub struct PlanView {
    pub digest: Seq<u8>,
    pub original: Seq<u8>,
    pub duplicates: Seq<Seq<u8>>,
}

impl View for GroupPlan {
    type V = PlanView;

    open spec fn view(&self) -> PlanView {
        PlanView {
            digest: self.digest@,
            original: self.original@,
            duplicates: path_views(self.duplicates@),
        }
    }
}

/// What groups of duplicates stand for.
pub open spec fn plan_views(s: Seq<GroupPlan>) -> Seq<PlanView> {
    Seq::new(s.len(), |i: int| s[i]@)
}

/// A group of paths with its original told from the others.
pub open spec fn plan_of(digest: Seq<u8>, paths: Seq<Seq<u8>>, prefer: Seq<u8>) -> PlanView {
    PlanView {
        digest,
        original: original_of(paths, prefer).0,
        duplicates: original_of(paths, prefer).1,
    }
}

/// The groups of a table with their originals told from the others.
pub open spec fn plans_of(groups: Seq<(Seq<u8>, Vec<FilePath>)>, prefer: Seq<u8>) -> Seq<PlanView> {
    Seq::new(
        groups.len(),
        |i: int| plan_of(groups[i].0, path_views(groups[i].1@), prefer),
    )
}

/// Tells the original of each group from the others.
pub fn plan_groups(groups: &DuplicateGroups, prefer: &FilePath) -> (r: Vec<GroupPlan>)
    requires
        forall|i: int| 0 <= i < groups@.len() ==> (#[trigger] groups@[i]).1@.len() > 0,
    ensures
        plan_views(r@) == plans_of(keyed(groups@), prefer@),
{
    let ghost all = plans_of(keyed(groups@), prefer@);
    let mut r: Vec<GroupPlan> = Vec::new();
    let mut i: usize = 0;
    while i < groups.len()
        invariant
            i <= groups@.len(),
            forall|i: int| 0 <= i < groups@.len() ==> (#[trigger] groups@[i]).1@.len() > 0,
            all == plans_of(keyed(groups@), prefer@),
            r@.len() == i,
            forall|j: int| 0 <= j < i ==> (#[trigger] r@[j])@ == all[j],
        decreases groups@.len() - i,
    {
        let group = &groups[i];
        assert(keyed(groups@)[i as int] == (group.0@, group.1));
        let (original, duplicates) = pick_original(&group.1, prefer);
        r.push(GroupPlan { digest: group.0, original, duplicates });
        i = i + 1;
    }
    assert(plan_views(r@) =~= all);
    r
}

/// The groups of a search come in the order of their digests as hexadecimal text.
pub proof fn lemma_plans_in_order(groups: Seq<(Seq<u8>, Vec<FilePath>)>, prefer: Seq<u8>)
    requires
        sorted::<Digest, Vec<FilePath>>(groups),
    ensures
        forall|i: int, j: int|
            #![trigger plans_of(groups, prefer)[i], plans_of(groups, prefer)[j]]
            0 <= i < j < groups.len() ==> lex_le(
                hex_text(plans_of(groups, prefer)[i].digest),
                hex_text(plans_of(groups, prefer)[j].digest),
                char_order(),
            ),
{
    assert forall|i: int, j: int|
        #![trigger plans_of(groups, prefer)[i], plans_of(groups, prefer)[j]]
        0 <= i < j < groups.len() implies lex_le(
        hex_text(plans_of(groups, prefer)[i].digest),
        hex_text(plans_of(groups, prefer)[j].digest),
        char_order(),
    ) by {
        assert(Digest::le(groups[i].0, groups[j].0));
        lemma_hex_order(groups[i].0, groups[j].0);
    }
}

/// Something to be done to the file system.
pub enum Action {
    /// Make a directory and those above it.
    CreateDir(FilePath),
    /// Put a link to a file into a directory.
    Link(FilePath, FilePath),
    /// Delete a file that was searched.
    DeleteSource(FilePath),
    /// Take the links to a file out of a directory.
    RemoveLinks(FilePath, FilePath),
    /// Take a directory away if it is empty.
    RemoveEmptyDir(FilePath),
    /// Write the report.
    WriteReport(FilePath),
    /// Take a directory and all that is in it away.
    RemoveTree(FilePath),
}

/// What an action stands for.
pub enum ActionView {
    CreateDir(Seq<u8>),
    Link(Seq<u8>, Seq<u8>),
    DeleteSource(Seq<u8>),
    RemoveLinks(Seq<u8>, Seq<u8>),
    RemoveEmptyDir(Seq<u8>),
    WriteReport(Seq<u8>),
    RemoveTree(Seq<u8>),
}

impl View for Action {
    type V = ActionView;

    open spec fn view(&self) -> ActionView {
        match self {
            Action::CreateDir(p) => ActionView::CreateDir(p@),
            Action::Link(p, d) => ActionView::Link(p@, d@),
            Action::DeleteSource(p) => ActionView::DeleteSource(p@),
            Action::RemoveLinks(p, d) => ActionView::RemoveLinks(p@, d@),
            Action::RemoveEmptyDir(p) => ActionView::RemoveEmptyDir(p@),
            Action::WriteReport(p) => ActionView::WriteReport(p@),
            Action::RemoveTree(p) => ActionView::RemoveTree(p@),
        }
    }
}

/// What actions stand for.
pub open spec fn action_views(s: Seq<Action>) -> Seq<ActionView> {
    Seq::new(s.len(), |i: int| s[i]@)
}

/// The directory of the group at place `i`.
pub open spec fn group_dir(output: Seq<u8>, i: int) -> Seq<u8> {
    join(output, encode_utf8("group_"@ + padded(decimal((i + 1) as nat), 4, '0')))
}

/// Where the link to the original of a group is.
pub open spec fn original_dir(output: Seq<u8>, i: int) -> Seq<u8> {
    join(group_dir(output, i), encode_utf8("original"@))
}

/// Where the links to the duplicates of a group are.
pub open spec fn duplicates_dir(output: Seq<u8>, i: int) -> Seq<u8> {
    join(group_dir(output, i), encode_utf8("duplicates"@))
}

/// Whether one of the paths is `spot`.
pub open spec fn stands_at(paths: Seq<Seq<u8>>, spot: Seq<u8>) -> bool {
    exists|i: int| 0 <= i < paths.len() && same_path(#[trigger] paths[i], spot)
}

/// The resolved paths of the originals.
pub open spec fn original_spots(places: PlaceTable, plans: Seq<PlanView>) -> Seq<Seq<u8>> {
    Seq::new(plans.len(), |i: int| place_of(places, plans[i].original))
}

/// The resolved paths of the duplicates of the first `n` groups.
pub open spec fn duplicate_spots(places: PlaceTable, plans: Seq<PlanView>, n: int) -> Seq<Seq<u8>>
    decreases n,
{
    if n <= 0 {
        Seq::empty()
    } else {
        duplicate_spots(places, plans, n - 1) + plans[n - 1].duplicates.map_values(
            |path: Seq<u8>| place_of(places, path),
        )
    }
}

/// Whether a path names the original of a group, under this path or another one.
pub open spec fn is_kept(places: PlaceTable, plans: Seq<PlanView>, path: Seq<u8>) -> bool {
    stands_at(original_spots(places, plans), place_of(places, path))
}

/// Whether nothing but duplicates and the report of an earlier run is lost with the output
/// directory: no original lies in it, and no other file.
pub open spec fn holds_nothing_else(
    places: PlaceTable,
    plans: Seq<PlanView>,
    output: OutputDir,
) -> bool {
    &&& forall|i: int|
        0 <= i < plans.len() ==> !path_starts_with(
            #[trigger] original_spots(places, plans)[i],
            output.place@,
        )
    &&& forall|i: int|
        0 <= i < files_at_stake(output).len() && path_starts_with(
            #[trigger] files_at_stake(output)[i],
            output.place@,
        ) ==> {
            ||| stands_at(
                duplicate_spots(places, plans, plans.len() as int),
                files_at_stake(output)[i],
            )
            ||| same_path(files_at_stake(output)[i], report_path(output.place@))
                && has_earlier_report(output)
        }
}

/// Whether the report is written: not over a file other than the report of an earlier run,
/// and, where duplicates are deleted, not over an original.
pub open spec fn writes_report(
    places: PlaceTable,
    plans: Seq<PlanView>,
    output: OutputDir,
    delete: bool,
) -> bool {
    report_is_free(output) && !(delete && stands_at(
        original_spots(places, plans),
        report_path(output.place@),
    ))
}

/// Links to the files of a group.
pub open spec fn link_actions(plan: PlanView, output: Seq<u8>, i: int) -> Seq<ActionView> {
    seq![
        ActionView::CreateDir(original_dir(output, i)),
        ActionView::CreateDir(duplicates_dir(output, i)),
        ActionView::Link(plan.original, original_dir(output, i)),
    ] + Seq::new(
        plan.duplicates.len(),
        |j: int| ActionView::Link(plan.duplicates[j], duplicates_dir(output, i)),
    )
}

/// The deletion of a duplicate and of the links to it; a file that is to stay is not
/// deleted.
pub open spec fn delete_one(
    places: PlaceTable,
    plans: Seq<PlanView>,
    path: Seq<u8>,
    dir: Seq<u8>,
) -> Seq<ActionView> {
    if is_kept(places, plans, path) {
        Seq::empty()
    } else {
        seq![ActionView::DeleteSource(path), ActionView::RemoveLinks(path, dir)]
    }
}

/// The deletion of duplicates and of the links to them.
pub open spec fn delete_actions(
    places: PlaceTable,
    plans: Seq<PlanView>,
    duplicates: Seq<Seq<u8>>,
    dir: Seq<u8>,
) -> Seq<ActionView>
    decreases duplicates.len(),
{
    if duplicates.len() == 0 {
        Seq::empty()
    } else {
        delete_actions(places, plans, duplicates.drop_last(), dir) + delete_one(
            places,
            plans,
            duplicates.last(),
            dir,
        )
    }
}

/// What is done for the group at place `i`.
pub open spec fn group_actions(
    places: PlaceTable,
    plans: Seq<PlanView>,
    output: Seq<u8>,
    delete: bool,
    i: int,
) -> Seq<ActionView> {
    let links = link_actions(plans[i], output, i);
    if delete {
        let dir = duplicates_dir(output, i);
        links + delete_actions(places, plans, plans[i].duplicates, dir).push(
            ActionView::RemoveEmptyDir(dir),
        )
    } else {
        links
    }
}

/// What is done for the first `n` groups, once the output directory is there.
pub open spec fn actions_upto(
    places: PlaceTable,
    plans: Seq<PlanView>,
    output: Seq<u8>,
    delete: bool,
    n: int,
) -> Seq<ActionView>
    decreases n,
{
    if n <= 0 {
        seq![ActionView::CreateDir(output)]
    } else {
        actions_upto(places, plans, output, delete, n - 1) + group_actions(
            places,
            plans,
            output,
            delete,
            n - 1,
        )
    }
}

/// The report, and what comes after it. Where duplicates are deleted, the output directory
/// is taken away in the end if nothing else is lost with it.
pub open spec fn last_actions(
    places: PlaceTable,
    plans: Seq<PlanView>,
    output: OutputDir,
    delete: bool,
) -> Seq<ActionView> {
    let report = if writes_report(places, plans, output, delete) {
        seq![ActionView::WriteReport(report_path(output.path@))]
    } else {
        Seq::empty()
    };
    if delete && holds_nothing_else(places, plans, output) {
        report.push(ActionView::RemoveTree(output.path@))
    } else {
        report
    }
}

/// All that is done.
pub open spec fn all_actions(
    places: PlaceTable,
    plans: Seq<PlanView>,
    output: OutputDir,
    delete: bool,
) -> Seq<ActionView> {
    actions_upto(places, plans, output.path@, delete, plans.len() as int) + last_actions(
        places,
        plans,
        output,
        delete,
    )
}

fn push_action(actions: &mut Vec<Action>, action: Action)
    ensures
        action_views(final(actions)@) == action_views(old(actions)@).push(action@),
{
    let ghost before = action_views(actions@);
    actions.push(action);
    assert(action_views(actions@) =~= before.push(action@));
}

/// A table of paths, to tell whether a path is one of them.
fn path_table(paths: &Vec<FilePath>) -> (r: Table<PathKey, bool>)
    ensures
        forall|spot: Seq<u8>|
            r.find(#[trigger] components(spot)) is Some <==> stands_at(path_views(paths@), spot),
{
    let ghost views = path_views(paths@);
    let mut pairs: Vec<(PathKey, bool)> = Vec::new();
    let mut i: usize = 0;
    while i < paths.len()
        invariant
            i <= paths@.len(),
            views == path_views(paths@),
            pairs@.len() == i,
            forall|j: int| 0 <= j < i ==> (#[trigger] keyed(pairs@)[j]).0 == components(views[j]),
        decreases paths@.len() - i,
    {
        let key = paths[i].key();
        let ghost before = keyed(pairs@);
        pairs.push((key, true));
        assert(keyed(pairs@) =~= before.push((key.value(), true)));
        i = i + 1;
    }
    let ghost given = keyed(pairs@);
    let r = Table::from_pairs(pairs);
    proof {
        assert forall|spot: Seq<u8>|
            r.find(#[trigger] components(spot)) is Some <==> stands_at(views, spot) by {
            let k = components(spot);
            assert(r.find(k) == latest(given, k));
            lemma_values_at_occurs(given, k);
            if stands_at(views, spot) {
                let j = choose|j: int| 0 <= j < views.len() && same_path(#[trigger] views[j], spot);
                assert(given[j].0 == k);
            }
            if r.find(k) is Some {
                let j = choose|j: int| 0 <= j < given.len() && (#[trigger] given[j]).0 == k;
                assert(same_path(views[j], spot));
            }
        }
    }
    r
}

fn places_of_originals(plans: &Vec<GroupPlan>, places: &PlaceTable) -> (r: Vec<FilePath>)
    ensures
        path_views(r@) == original_spots(*places, plan_views(plans@)),
{
    let ghost spots = original_spots(*places, plan_views(plans@));
    let mut r: Vec<FilePath> = Vec::new();
    let mut i: usize = 0;
    while i < plans.len()
        invariant
            i <= plans@.len(),
            spots == original_spots(*places, plan_views(plans@)),
            r@.len() == i,
            forall|j: int| 0 <= j < i ==> (#[trigger] r@[j])@ == spots[j],
        decreases plans@.len() - i,
    {
        assert(plan_views(plans@)[i as int] == plans@[i as int]@);
        r.push(place(places, &plans[i].original));
        i = i + 1;
    }
    assert(path_views(r@) =~= spots);
    r
}

fn push_places(to: &mut Vec<FilePath>, paths: &Vec<FilePath>, places: &PlaceTable)
    ensures
        path_views(final(to)@) == path_views(old(to)@) + path_views(paths@).map_values(
            |path: Seq<u8>| place_of(*places, path),
        ),
{
    let ghost before = path_views(to@);
    let ghost added = path_views(paths@).map_values(|path: Seq<u8>| place_of(*places, path));
    let mut i: usize = 0;
    assert(before + added.take(0) =~= before);
    while i < paths.len()
        invariant
            i <= paths@.len(),
            added == path_views(paths@).map_values(|path: Seq<u8>| place_of(*places, path)),
            path_views(to@) == before + added.take(i as int),
        decreases paths@.len() - i,
    {
        let ghost here = path_views(to@);
        let spot = place(places, &paths[i]);
        assert(added[i as int] == spot@);
        to.push(spot);
        proof {
            assert(path_views(to@) =~= here.push(spot@));
            assert(path_views(to@) =~= before + added.take(i + 1));
        }
        i = i + 1;
    }
    assert(added.take(i as int) =~= added);
}

fn places_of_duplicates(plans: &Vec<GroupPlan>, places: &PlaceTable) -> (r: Vec<FilePath>)
    ensures
        path_views(r@) == duplicate_spots(*places, plan_views(plans@), plans@.len() as int),
{
    let ghost views = plan_views(plans@);
    let mut r: Vec<FilePath> = Vec::new();
    let mut i: usize = 0;
    assert(path_views(r@) =~= duplicate_spots(*places, views, 0));
    while i < plans.len()
        invariant
            i <= plans@.len(),
            views == plan_views(plans@),
            path_views(r@) == duplicate_spots(*places, views, i as int),
        decreases plans@.len() - i,
    {
        assert(views[i as int] == plans@[i as int]@);
        push_places(&mut r, &plans[i].duplicates, places);
        i = i + 1;
    }
    r
}

/// Whether nothing but duplicates and the report of an earlier run is lost with the output
/// directory.
fn nothing_else_inside(
    plans: &Vec<GroupPlan>,
    places: &PlaceTable,
    originals: &Vec<FilePath>,
    output: &OutputDir,
) -> (r: bool)
    requires
        path_views(originals@) == original_spots(*places, plan_views(plans@)),
    ensures
        r == holds_nothing_else(*places, plan_views(plans@), *output),
{
    let ghost views = plan_views(plans@);
    let ghost spots = original_spots(*places, views);
    let mut i: usize = 0;
    assert(path_views(originals@).len() == originals@.len());
    while i < originals.len()
        invariant
            i <= originals@.len() == views.len(),
            path_views(originals@) == spots,
            views == plan_views(plans@),
            spots == original_spots(*places, views),
            forall|j: int|
                0 <= j < i ==> !path_starts_with(#[trigger] spots[j], output.place@),
        decreases originals@.len() - i,
    {
        assert(spots[i as int] == originals@[i as int]@);
        if originals[i].starts_with(&output.place) {
            assert(path_starts_with(original_spots(*places, views)[i as int], output.place@));
            return false;
        }
        i = i + 1;
    }
    assert forall|j: int| 0 <= j < views.len() implies !path_starts_with(
        #[trigger] original_spots(*places, views)[j],
        output.place@,
    ) by {
        assert(spots[j] == original_spots(*places, views)[j]);
    }
    let duplicates = places_of_duplicates(plans, places);
    let ghost gone = duplicate_spots(*places, views, views.len() as int);
    let known = path_table(&duplicates);
    let report = report_below(&output.place);
    let earlier = finds_earlier_report(output);
    let files = gather_files(output);
    let ghost stake = files_at_stake(*output);
    let mut i: usize = 0;
    while i < files.len()
        invariant
            i <= files@.len(),
            views == plan_views(plans@),
            gone == duplicate_spots(*places, views, views.len() as int),
            report@ == report_path(output.place@),
            earlier == has_earlier_report(*output),
            path_views(files@) == stake,
            stake == files_at_stake(*output),
            forall|spot: Seq<u8>|
                known.find(#[trigger] components(spot)) is Some <==> stands_at(gone, spot),
            forall|j: int|
                0 <= j < i && path_starts_with(#[trigger] stake[j], output.place@) ==> stands_at(
                    gone,
                    stake[j],
                ) || same_path(stake[j], report_path(output.place@)) && earlier,
        decreases files@.len() - i,
    {
        let file = &files[i];
        assert(stake[i as int] == file@);
        if file.starts_with(&output.place) {
            let duplicate = known.get(&file.key()).is_some();
            if !duplicate && !(earlier && file.same(&report)) {
                assert(path_starts_with(files_at_stake(*output)[i as int], output.place@));
                return false;
            }
        }
        i = i + 1;
    }
    proof {
        assert(path_views(files@).len() == files@.len());
        assert forall|j: int|
            0 <= j < files_at_stake(*output).len() && path_starts_with(
                #[trigger] files_at_stake(*output)[j],
                output.place@,
            ) implies stands_at(gone, files_at_stake(*output)[j]) || same_path(
            files_at_stake(*output)[j],
            report_path(output.place@),
        ) && has_earlier_report(*output) by {
            assert(stake[j] == files_at_stake(*output)[j]);
        }
    }
    true
}

fn push_links(actions: &mut Vec<Action>, plan: &GroupPlan, output: &FilePath, i: usize) -> (r:
    FilePath)
    requires
        i < usize::MAX,
    ensures
        action_views(final(actions)@) == action_views(old(actions)@) + link_actions(
            plan@,
            output@,
            i as int,
        ),
        r@ == duplicates_dir(output@, i as int),
{
    let ghost before = action_views(actions@);
    let ghost planned = link_actions(plan@, output@, i as int);
    let mut name = String::from_str("group_");
    name.append(zero_padded((i + 1) as u64, 4).as_str());
    let dir = output.join(name.as_str().as_bytes());
    let original_dir = dir.join("original".as_bytes());
    let duplicates_dir = dir.join("duplicates".as_bytes());
    push_action(actions, Action::CreateDir(original_dir.clone()));
    push_action(actions, Action::CreateDir(duplicates_dir.clone()));
    push_action(actions, Action::Link(plan.original.clone(), original_dir));
    assert(action_views(actions@) =~= before + planned.take(3));
    let mut j: usize = 0;
    while j < plan.duplicates.len()
        invariant
            j <= plan.duplicates@.len(),
            planned == link_actions(plan@, output@, i as int),
            duplicates_dir@ == self::duplicates_dir(output@, i as int),
            action_views(actions@) == before + planned.take(j + 3),
        decreases plan.duplicates@.len() - j,
    {
        push_action(actions, Action::Link(plan.duplicates[j].clone(), duplicates_dir.clone()));
        proof {
            assert(planned[j + 3] == ActionView::Link(
                plan.duplicates@[j as int]@,
                duplicates_dir@,
            ));
            assert(action_views(actions@) =~= before + planned.take(j + 4));
        }
        j = j + 1;
    }
    assert(planned.take(j + 3) =~= planned);
    duplicates_dir
}

fn push_deletions(
    actions: &mut Vec<Action>,
    plans: &Vec<GroupPlan>,
    duplicates: &Vec<FilePath>,
    dir: &FilePath,
    places: &PlaceTable,
    kept: &Table<PathKey, bool>,
)
    requires
        forall|spot: Seq<u8>|
            kept.find(#[trigger] components(spot)) is Some <==> stands_at(
                original_spots(*places, plan_views(plans@)),
                spot,
            ),
    ensures
        action_views(final(actions)@) == action_views(old(actions)@) + delete_actions(
            *places,
            plan_views(plans@),
            path_views(duplicates@),
            dir@,
        ),
{
    let ghost before = action_views(actions@);
    let ghost views = plan_views(plans@);
    let ghost paths = path_views(duplicates@);
    let mut i: usize = 0;
    proof {
        assert(paths.take(0) =~= Seq::empty());
        assert(before + delete_actions(*places, views, paths.take(0), dir@) =~= before);
    }
    while i < duplicates.len()
        invariant
            i <= duplicates@.len(),
            views == plan_views(plans@),
            paths == path_views(duplicates@),
            forall|spot: Seq<u8>|
                kept.find(#[trigger] components(spot)) is Some <==> stands_at(
                    original_spots(*places, views),
                    spot,
                ),
            action_views(actions@) == before + delete_actions(
                *places,
                views,
                paths.take(i as int),
                dir@,
            ),
        decreases duplicates@.len() - i,
    {
        let path = &duplicates[i];
        let ghost here = action_views(actions@);
        proof {
            assert(paths.take(i + 1).drop_last() =~= paths.take(i as int));
            assert(paths.take(i + 1).last() == path@);
        }
        let stays = kept.get(&place(places, path).key()).is_some();
        assert(stays == is_kept(*places, views, path@));
        if !stays {
            push_action(actions, Action::DeleteSource(path.clone()));
            push_action(actions, Action::RemoveLinks(path.clone(), dir.clone()));
        }
        proof {
            assert(action_views(actions@) =~= here + delete_one(*places, views, path@, dir@));
            assert(action_views(actions@) =~= before + delete_actions(
                *places,
                views,
                paths.take(i + 1),
                dir@,
            ));
        }
        i = i + 1;
    }
    assert(paths.take(i as int) =~= paths);
}

fn push_group(
    actions: &mut Vec<Action>,
    plans: &Vec<GroupPlan>,
    i: usize,
    output: &FilePath,
    delete_mode: bool,
    places: &PlaceTable,
    kept: &Table<PathKey, bool>,
)
    requires
        i < plans@.len(),
        forall|spot: Seq<u8>|
            kept.find(#[trigger] components(spot)) is Some <==> stands_at(
                original_spots(*places, plan_views(plans@)),
                spot,
            ),
    ensures
        action_views(final(actions)@) == action_views(old(actions)@) + group_actions(
            *places,
            plan_views(plans@),
            output@,
            delete_mode,
            i as int,
        ),
{
    let ghost before = action_views(actions@);
    let ghost views = plan_views(plans@);
    let count: usize = plans.len();
    assert(i < count);
    let plan = &plans[i];
    assert(views[i as int] == plan@);
    let dir = push_links(actions, plan, output, i);
    if delete_mode {
        push_deletions(actions, plans, &plan.duplicates, &dir, places, kept);
        push_action(actions, Action::RemoveEmptyDir(dir));
    }
    assert(action_views(actions@) =~= before + group_actions(
        *places,
        views,
        output@,
        delete_mode,
        i as int,
    ));
}

fn push_last(
    actions: &mut Vec<Action>,
    plans: &Vec<GroupPlan>,
    output: &OutputDir,
    delete_mode: bool,
    places: &PlaceTable,
    originals: &Vec<FilePath>,
    kept: &Table<PathKey, bool>,
)
    requires
        path_views(originals@) == original_spots(*places, plan_views(plans@)),
        forall|spot: Seq<u8>|
            kept.find(#[trigger] components(spot)) is Some <==> stands_at(
                original_spots(*places, plan_views(plans@)),
                spot,
            ),
    ensures
        action_views(final(actions)@) == action_views(old(actions)@) + last_actions(
            *places,
            plan_views(plans@),
            *output,
            delete_mode,
        ),
{
    let ghost before = action_views(actions@);
    let over_original = kept.get(&report_below(&output.place).key()).is_some();
    if can_take_report(output) && !(delete_mode && over_original) {
        push_action(actions, Action::WriteReport(report_below(&output.path)));
    }
    if delete_mode && nothing_else_inside(plans, places, originals, output) {
        push_action(actions, Action::RemoveTree(output.path.clone()));
    }
    assert(action_views(actions@) =~= before + last_actions(
        *places,
        plan_views(plans@),
        *output,
        delete_mode,
    ));
}

/// Decides all that is done with the groups of duplicates.
pub fn organise(
    plans: &Vec<GroupPlan>,
    places: &PlaceTable,
    output: &OutputDir,
    delete_mode: bool,
) -> (r: Vec<Action>)
    ensures
        action_views(r@) == all_actions(*places, plan_views(plans@), *output, delete_mode),
{
    let ghost views = plan_views(plans@);
    let originals = places_of_originals(plans, places);
    let kept = path_table(&originals);
    let mut r: Vec<Action> = Vec::new();
    push_action(&mut r, Action::CreateDir(output.path.clone()));
    let mut i: usize = 0;
    assert(action_views(r@) =~= actions_upto(*places, views, output.path@, delete_mode, 0));
    while i < plans.len()
        invariant
            i <= plans@.len(),
            views == plan_views(plans@),
            forall|spot: Seq<u8>|
                kept.find(#[trigger] components(spot)) is Some <==> stands_at(
                    original_spots(*places, views),
                    spot,
                ),
            action_views(r@) == actions_upto(
                *places,
                views,
                output.path@,
                delete_mode,
                i as int,
            ),
        decreases plans@.len() - i,
    {
        push_group(&mut r, plans, i, &output.path, delete_mode, places, &kept);
        i = i + 1;
    }
    push_last(&mut r, plans, output, delete_mode, places, &originals, &kept);
    r
}

/// Decides all that is done with the groups of duplicates: nothing in a dry run.
pub fn output_actions(
    plans: &Vec<GroupPlan>,
    places: &PlaceTable,
    output: &OutputDir,
    delete_mode: bool,
    dry_run: bool,
) -> (r: Vec<Action>)
    ensures
        dry_run ==> r@.len() == 0,
        !dry_run ==> action_views(r@) == all_actions(
            *places,
            plan_views(plans@),
            *output,
            delete_mode,
        ),
{
    if dry_run {
        Vec::new()
    } else {
        organise(plans, places, output, delete_mode)
    }
}

proof fn lemma_letter_first(chars: Seq<char>)
    requires
        chars.len() > 0,
        'a' <= chars[0] <= 'z',
    ensures
        encode_utf8(chars).len() > 0,
        encode_utf8(chars)[0] != SLASH,
{
    let first = encode_scalar(chars[0] as u32);
    assert(encode_utf8(chars) == first + encode_utf8(chars.drop_first()));
    let one = seq![chars[0]];
    is_ascii_chars_encode_utf8(one);
    assert(encode_utf8(one) == first + encode_utf8(one.drop_first()));
    assert(one[0] as u8 == encode_utf8(one)[0]);
    assert(first.len() > 0);
}

proof fn lemma_below_output(output: Seq<u8>, i: int)
    ensures
        path_starts_with(output, output),
        path_starts_with(original_dir(output, i), output),
        path_starts_with(duplicates_dir(output, i), output),
        path_starts_with(report_path(output), output),
{
    reveal_strlit("group_");
    reveal_strlit("original");
    reveal_strlit("duplicates");
    reveal_strlit("duplicate_report.txt");
    let group = "group_"@ + padded(decimal((i + 1) as nat), 4, '0');
    lemma_letter_first(group);
    lemma_letter_first("original"@);
    lemma_letter_first("duplicates"@);
    lemma_letter_first("duplicate_report.txt"@);
    let dir = group_dir(output, i);
    lemma_join_starts_with(output, encode_utf8(group));
    lemma_join_starts_with(dir, encode_utf8("original"@));
    lemma_join_starts_with(dir, encode_utf8("duplicates"@));
    lemma_join_starts_with(output, encode_utf8("duplicate_report.txt"@));
    lemma_starts_with_transitive(original_dir(output, i), dir, output);
    lemma_starts_with_transitive(duplicates_dir(output, i), dir, output);
    lemma_same_path(output, output);
}

/// Whether an action changes nothing but what is in the output directory.
pub open spec fn stays_in(action: ActionView, output: Seq<u8>) -> bool {
    match action {
        ActionView::CreateDir(dir) => path_starts_with(dir, output),
        ActionView::Link(_, dir) => path_starts_with(dir, output),
        ActionView::DeleteSource(_) => false,
        ActionView::RemoveLinks(_, dir) => path_starts_with(dir, output),
        ActionView::RemoveEmptyDir(dir) => path_starts_with(dir, output),
        ActionView::WriteReport(path) => path_starts_with(path, output),
        ActionView::RemoveTree(dir) => path_starts_with(dir, output),
    }
}

/// Whether an action takes something away.
pub open spec fn removes(action: ActionView) -> bool {
    match action {
        ActionView::DeleteSource(_) => true,
        ActionView::RemoveLinks(_, _) => true,
        ActionView::RemoveEmptyDir(_) => true,
        ActionView::RemoveTree(_) => true,
        _ => false,
    }
}

/// Whether a path is among the duplicates of a group.
pub open spec fn is_duplicate(plans: Seq<PlanView>, path: Seq<u8>) -> bool {
    exists|i: int| 0 <= i < plans.len() && (#[trigger] plans[i]).duplicates.contains(path)
}

/// Whether an action for a group is allowed: deleting a duplicate that is no original,
/// or something that stays in the output directory and leaves the directory there.
spec fn allowed(
    places: PlaceTable,
    plans: Seq<PlanView>,
    output: Seq<u8>,
    delete: bool,
    action: ActionView,
) -> bool {
    &&& removes(action) ==> delete
    &&& match action {
        ActionView::DeleteSource(path) => is_duplicate(plans, path) && !is_kept(
            places,
            plans,
            path,
        ),
        ActionView::WriteReport(_) => false,
        ActionView::RemoveTree(_) => false,
        _ => stays_in(action, output),
    }
}

proof fn lemma_delete_actions(
    places: PlaceTable,
    plans: Seq<PlanView>,
    output: Seq<u8>,
    duplicates: Seq<Seq<u8>>,
    dir: Seq<u8>,
    a: ActionView,
)
    requires
        path_starts_with(dir, output),
        forall|j: int| 0 <= j < duplicates.len() ==> is_duplicate(plans, #[trigger] duplicates[j]),
    ensures
        delete_actions(places, plans, duplicates, dir).contains(a) ==> allowed(
            places,
            plans,
            output,
            true,
            a,
        ),
        a matches ActionView::DeleteSource(path) ==> (duplicates.contains(path) && !is_kept(
            places,
            plans,
            path,
        ) ==> delete_actions(places, plans, duplicates, dir).contains(a)),
    decreases duplicates.len(),
{
    if duplicates.len() > 0 {
        let front = duplicates.drop_last();
        let one = delete_one(places, plans, duplicates.last(), dir);
        assert forall|j: int| 0 <= j < front.len() implies is_duplicate(
            plans,
            #[trigger] front[j],
        ) by {
            assert(is_duplicate(plans, duplicates[j]));
        }
        lemma_delete_actions(places, plans, output, front, dir, a);
        lemma_seq_concat_contains_all_elements(
            delete_actions(places, plans, front, dir),
            one,
            a,
        );
        assert(is_duplicate(plans, duplicates[duplicates.len() - 1]));
        if let ActionView::DeleteSource(path) = a {
            if duplicates.contains(path) && !is_kept(places, plans, path) {
                let j = choose|j: int| 0 <= j < duplicates.len() && duplicates[j] == path;
                if j < front.len() {
                    assert(front[j] == path);
                } else {
                    assert(one[0] == a);
                }
            }
        }
    }
}

proof fn lemma_group_actions(
    places: PlaceTable,
    plans: Seq<PlanView>,
    output: Seq<u8>,
    delete: bool,
    i: int,
    a: ActionView,
)
    requires
        0 <= i < plans.len(),
    ensures
        group_actions(places, plans, output, delete, i).contains(a) ==> allowed(
            places,
            plans,
            output,
            delete,
            a,
        ),
        a matches ActionView::DeleteSource(path) ==> (delete && plans[i].duplicates.contains(path)
            && !is_kept(places, plans, path) ==> group_actions(
            places,
            plans,
            output,
            delete,
            i,
        ).contains(a)),
{
    let dir = duplicates_dir(output, i);
    let duplicates = plans[i].duplicates;
    let links = link_actions(plans[i], output, i);
    let gone = delete_actions(places, plans, duplicates, dir);
    let end = ActionView::RemoveEmptyDir(dir);
    lemma_below_output(output, i);
    assert forall|j: int| 0 <= j < duplicates.len() implies is_duplicate(
        plans,
        #[trigger] duplicates[j],
    ) by {
        assert(plans[i].duplicates.contains(duplicates[j]));
    }
    lemma_delete_actions(places, plans, output, duplicates, dir, a);
    lemma_seq_concat_contains_all_elements(links, gone.push(end), a);
    lemma_seq_concat_contains_all_elements(gone, seq![end], a);
    assert(gone.push(end) =~= gone + seq![end]);
    if links.contains(a) {
        let m = choose|m: int| 0 <= m < links.len() && links[m] == a;
        assert(allowed(places, plans, output, delete, links[m]));
    }
    if seq![end].contains(a) {
        assert(a == end);
    }
}

proof fn lemma_actions_upto(
    places: PlaceTable,
    plans: Seq<PlanView>,
    output: Seq<u8>,
    delete: bool,
    n: int,
    a: ActionView,
)
    requires
        0 <= n <= plans.len(),
    ensures
        actions_upto(places, plans, output, delete, n).contains(a) ==> allowed(
            places,
            plans,
            output,
            delete,
            a,
        ),
        a matches ActionView::DeleteSource(path) ==> (delete && !is_kept(places, plans, path) && (
        exists|i: int| 0 <= i < n && (#[trigger] plans[i]).duplicates.contains(path))
            ==> actions_upto(places, plans, output, delete, n).contains(a)),
    decreases n,
{
    if n == 0 {
        lemma_below_output(output, 0);
    } else {
        lemma_actions_upto(places, plans, output, delete, n - 1, a);
        lemma_group_actions(places, plans, output, delete, n - 1, a);
        lemma_seq_concat_contains_all_elements(
            actions_upto(places, plans, output, delete, n - 1),
            group_actions(places, plans, output, delete, n - 1),
            a,
        );
        if let ActionView::DeleteSource(path) = a {
            if exists|i: int| 0 <= i < n && (#[trigger] plans[i]).duplicates.contains(path) {
                let i = choose|i: int|
                    0 <= i < n && (#[trigger] plans[i]).duplicates.contains(path);
                if i < n - 1 {
                    assert(plans[i].duplicates.contains(path));
                }
            }
        }
    }
}

proof fn lemma_all_actions(
    places: PlaceTable,
    plans: Seq<PlanView>,
    output: OutputDir,
    delete: bool,
    a: ActionView,
)
    ensures
        all_actions(places, plans, output, delete).contains(a) ==> {
            ||| allowed(places, plans, output.path@, delete, a)
            ||| a == ActionView::WriteReport(report_path(output.path@)) && writes_report(
                places,
                plans,
                output,
                delete,
            )
            ||| a == ActionView::RemoveTree(output.path@) && delete && holds_nothing_else(
                places,
                plans,
                output,
            )
        },
        a matches ActionView::DeleteSource(path) ==> (delete && is_duplicate(plans, path)
            && !is_kept(places, plans, path) ==> all_actions(
            places,
            plans,
            output,
            delete,
        ).contains(a)),
{
    let body = actions_upto(places, plans, output.path@, delete, plans.len() as int);
    let end = last_actions(places, plans, output, delete);
    lemma_actions_upto(places, plans, output.path@, delete, plans.len() as int, a);
    lemma_seq_concat_contains_all_elements(body, end, a);
}

/// Whether an action writes over the file at a resolved path, or takes it away. Making a
/// directory, or a link under a new name, does neither, and only links are removed as
/// links.
pub open spec fn loses(
    places: PlaceTable,
    output: OutputDir,
    action: ActionView,
    spot: Seq<u8>,
) -> bool {
    match action {
        ActionView::DeleteSource(path) => same_path(place_of(places, path), spot),
        ActionView::WriteReport(_) => same_path(spot, report_path(output.place@)),
        ActionView::RemoveTree(_) => path_starts_with(spot, output.place@),
        _ => false,
    }
}

/// Without deletion nothing is taken away, and nothing is changed but what is in the output
/// directory. No file that was searched and no file that lies in the output directory is
/// written over or taken away, but for the report of an earlier run at the place of the
/// report.
pub proof fn lemma_sources_untouched(
    places: PlaceTable,
    plans: Seq<PlanView>,
    output: OutputDir,
)
    ensures
        forall|a: ActionView| #[trigger]
            all_actions(places, plans, output, false).contains(a) ==> stays_in(a, output.path@)
                && !removes(a),
        forall|a: ActionView, i: int|
            #![trigger all_actions(places, plans, output, false).contains(a), files_at_stake(
                output,
            )[i]]
            all_actions(places, plans, output, false).contains(a) && 0 <= i < files_at_stake(
                output,
            ).len() && loses(places, output, a, files_at_stake(output)[i]) ==> same_path(
                files_at_stake(output)[i],
                report_path(output.place@),
            ) && has_earlier_report(output),
{
    lemma_below_output(output.path@, 0);
    let all = all_actions(places, plans, output, false);
    assert forall|a: ActionView| #[trigger] all.contains(a) implies stays_in(a, output.path@)
        && !removes(a) by {
        lemma_all_actions(places, plans, output, false, a);
    }
    assert forall|a: ActionView, i: int|
        #![trigger all.contains(a), files_at_stake(output)[i]]
        all.contains(a) && 0 <= i < files_at_stake(output).len() && loses(
            places,
            output,
            a,
            files_at_stake(output)[i],
        ) implies same_path(files_at_stake(output)[i], report_path(output.place@))
        && has_earlier_report(output) by {
        lemma_all_actions(places, plans, output, false, a);
        lemma_report_is_free(output, i);
    }
}

/// A file stays exactly where its resolved path is that of the original of some group.
pub proof fn lemma_kept_by_place(places: PlaceTable, plans: Seq<PlanView>, path: Seq<u8>)
    ensures
        is_kept(places, plans, path) <==> exists|j: int|
            0 <= j < plans.len() && components(place_of(places, (#[trigger] plans[j]).original))
                == components(place_of(places, path)),
{
    let spots = original_spots(places, plans);
    let spot = place_of(places, path);
    if is_kept(places, plans, path) {
        let j = choose|j: int| 0 <= j < spots.len() && same_path(#[trigger] spots[j], spot);
        assert(components(place_of(places, plans[j].original)) == components(spot));
    }
    if exists|j: int|
        0 <= j < plans.len() && components(place_of(places, (#[trigger] plans[j]).original))
            == components(spot) {
        let j = choose|j: int|
            0 <= j < plans.len() && components(place_of(places, (#[trigger] plans[j]).original))
                == components(spot);
        assert(same_path(spots[j], spot));
    }
}

/// With deletion, the files that are deleted are the duplicates, but for those whose
/// resolved path is that of the original of some group; whatever else is changed is in
/// the output directory.
pub proof fn lemma_deleted_files(places: PlaceTable, plans: Seq<PlanView>, output: OutputDir)
    ensures
        forall|path: Seq<u8>|
            #![trigger all_actions(places, plans, output, true).contains(
                ActionView::DeleteSource(path),
            )]
            all_actions(places, plans, output, true).contains(ActionView::DeleteSource(path)) <==> (
            exists|i: int| 0 <= i < plans.len() && (#[trigger] plans[i]).duplicates.contains(path))
                && !(exists|j: int|
                0 <= j < plans.len() && components(place_of(places, (#[trigger] plans[j]).original))
                    == components(place_of(places, path))),
        forall|a: ActionView| #[trigger]
            all_actions(places, plans, output, true).contains(a) ==> a is DeleteSource || stays_in(
                a,
                output.path@,
            ),
{
    lemma_below_output(output.path@, 0);
    let all = all_actions(places, plans, output, true);
    assert forall|path: Seq<u8>|
        #![trigger all.contains(ActionView::DeleteSource(path))]
        all.contains(ActionView::DeleteSource(path)) <==> (exists|i: int|
            0 <= i < plans.len() && (#[trigger] plans[i]).duplicates.contains(path)) && !(exists|
            j: int,
        |
            0 <= j < plans.len() && components(place_of(places, (#[trigger] plans[j]).original))
                == components(place_of(places, path))) by {
        lemma_all_actions(places, plans, output, true, ActionView::DeleteSource(path));
        lemma_kept_by_place(places, plans, path);
    }
    assert forall|a: ActionView| #[trigger] all.contains(a) implies a is DeleteSource || stays_in(
        a,
        output.path@,
    ) by {
        lemma_all_actions(places, plans, output, true, a);
    }
}

/// Deletion keeps one copy. Of every group a file stays: it is deleted under none of its
/// paths, the report is not written over it, and the output directory is not taken away
/// where it lies in there. Every other file of the group is deleted unless its resolved
/// path is that of the original of some group.
pub proof fn lemma_one_copy_kept(
    groups: Seq<(Seq<u8>, Vec<FilePath>)>,
    prefer: Seq<u8>,
    places: PlaceTable,
    output: OutputDir,
    i: int,
)
    requires
        0 <= i < groups.len(),
        groups[i].1@.len() > 0,
    ensures
        ({
            let plans = plans_of(groups, prefer);
            let actions = all_actions(places, plans, output, true);
            let group = path_views(groups[i].1@);
            let spot = place_of(places, plans[i].original);
            &&& group.contains(plans[i].original)
            &&& forall|path: Seq<u8>|
                #![trigger actions.contains(ActionView::DeleteSource(path))]
                same_path(place_of(places, path), spot) ==> !actions.contains(
                    ActionView::DeleteSource(path),
                )
            &&& forall|path: Seq<u8>| #[trigger]
                actions.contains(ActionView::WriteReport(path)) ==> !same_path(
                    report_path(output.place@),
                    spot,
                )
            &&& forall|dir: Seq<u8>| #[trigger]
                actions.contains(ActionView::RemoveTree(dir)) ==> !path_starts_with(
                    spot,
                    output.place@,
                )
            &&& forall|path: Seq<u8>| #[trigger]
                group.contains(path) && !(exists|j: int|
                    0 <= j < plans.len() && components(
                        place_of(places, (#[trigger] plans[j]).original),
                    ) == components(place_of(places, path))) ==> actions.contains(
                    ActionView::DeleteSource(path),
                )
        }),
{
    let plans = plans_of(groups, prefer);
    let actions = all_actions(places, plans, output, true);
    let group = path_views(groups[i].1@);
    let spots = original_spots(places, plans);
    let spot = place_of(places, plans[i].original);
    assert(spots[i] == spot);
    lemma_original_keeps_paths(group, prefer);
    lemma_deleted_files(places, plans, output);
    assert forall|path: Seq<u8>|
        #![trigger actions.contains(ActionView::DeleteSource(path))]
        same_path(place_of(places, path), spot) implies !actions.contains(
        ActionView::DeleteSource(path),
    ) by {
        assert(same_path(spots[i], place_of(places, path)));
        assert(components(place_of(places, plans[i].original)) == components(
            place_of(places, path),
        ));
    }
    assert forall|path: Seq<u8>| #[trigger]
        actions.contains(ActionView::WriteReport(path)) implies !same_path(
        report_path(output.place@),
        spot,
    ) by {
        lemma_all_actions(places, plans, output, true, ActionView::WriteReport(path));
        assert(!same_path(spots[i], report_path(output.place@)));
    }
    assert forall|dir: Seq<u8>| #[trigger]
        actions.contains(ActionView::RemoveTree(dir)) implies !path_starts_with(
        spot,
        output.place@,
    ) by {
        lemma_all_actions(places, plans, output, true, ActionView::RemoveTree(dir));
        assert(!path_starts_with(original_spots(places, plans)[i], output.place@));
    }
    assert forall|path: Seq<u8>| #[trigger]
        group.contains(path) && !(exists|j: int|
            0 <= j < plans.len() && components(place_of(places, (#[trigger] plans[j]).original))
                == components(place_of(places, path))) implies actions.contains(
        ActionView::DeleteSource(path),
    ) by {
        lemma_kept_by_place(places, plans, path);
        if same_path(path, plans[i].original) {
            assert(place_of(places, path) == spot || places.find(components(path)) is None);
            assert(same_path(spots[i], place_of(places, path)));
        }
        assert(plans[i].duplicates.contains(path));
        assert(is_duplicate(plans, path));
    }
}

proof fn lemma_duplicate_spots(places: PlaceTable, plans: Seq<PlanView>, n: int, spot: Seq<u8>)
    requires
        0 <= n <= plans.len(),
        stands_at(duplicate_spots(places, plans, n), spot),
    ensures
        exists|path: Seq<u8>| #[trigger]
            is_duplicate(plans, path) && same_path(place_of(places, path), spot),
    decreases n,
{
    let all = duplicate_spots(places, plans, n);
    let m = choose|m: int| 0 <= m < all.len() && same_path(#[trigger] all[m], spot);
    let front = duplicate_spots(places, plans, n - 1);
    if m < front.len() {
        assert(same_path(front[m], spot));
        lemma_duplicate_spots(places, plans, n - 1, spot);
    } else {
        let path = plans[n - 1].duplicates[m - front.len()];
        assert(plans[n - 1].duplicates.contains(path));
        assert(is_duplicate(plans, path));
        assert(same_path(place_of(places, path), spot));
    }
}

/// Deletion takes nothing but duplicates: a file that was searched or that lies in the
/// output directory is written over or taken away only if it is a duplicate that is
/// deleted, or the report of an earlier run at the place of the report.
pub proof fn lemma_only_duplicates_lost(
    places: PlaceTable,
    plans: Seq<PlanView>,
    output: OutputDir,
    a: ActionView,
    i: int,
)
    requires
        all_actions(places, plans, output, true).contains(a),
        0 <= i < files_at_stake(output).len(),
        loses(places, output, a, files_at_stake(output)[i]),
    ensures
        ({
            let file = files_at_stake(output)[i];
            ||| same_path(file, report_path(output.place@)) && has_earlier_report(output)
            ||| exists|path: Seq<u8>| #[trigger]
                all_actions(places, plans, output, true).contains(ActionView::DeleteSource(path))
                    && same_path(place_of(places, path), file)
        }),
{
    let file = files_at_stake(output)[i];
    let spots = original_spots(places, plans);
    let all = all_actions(places, plans, output, true);
    lemma_all_actions(places, plans, output, true, a);
    lemma_deleted_files(places, plans, output);
    match a {
        ActionView::DeleteSource(path) => {
            assert(all.contains(ActionView::DeleteSource(path)));
        },
        ActionView::WriteReport(_) => {
            lemma_report_is_free(output, i);
        },
        ActionView::RemoveTree(_) => {
            if !(same_path(file, report_path(output.place@)) && has_earlier_report(output)) {
                lemma_duplicate_spots(places, plans, plans.len() as int, file);
                let path = choose|path: Seq<u8>| #[trigger]
                    is_duplicate(plans, path) && same_path(place_of(places, path), file);
                lemma_kept_by_place(places, plans, path);
                if is_kept(places, plans, path) {
                    let j = choose|j: int|
                        0 <= j < spots.len() && same_path(
                            #[trigger] spots[j],
                            place_of(places, path),
                        );
                    lemma_same_path(spots[j], file);
                    assert(path_starts_with(original_spots(places, plans)[j], output.place@));
                    assert(false);
                }
                assert(all.contains(ActionView::DeleteSource(path)));
            }
        },
        _ => {},
    }
}

/// Every group has its plan, in the order of the groups: the digest of the group, and the
/// original and the duplicates that are told apart among its paths.
pub proof fn lemma_every_group_is_planned(
    groups: Seq<(Seq<u8>, Vec<FilePath>)>,
    prefer: Seq<u8>,
    i: int,
)
    requires
        0 <= i < groups.len(),
    ensures
        plans_of(groups, prefer).len() == groups.len(),
        plans_of(groups, prefer)[i].digest == groups[i].0,
        (plans_of(groups, prefer)[i].original, plans_of(groups, prefer)[i].duplicates)
            == original_of(groups[i].1@.map_values(|p: FilePath| p@), prefer),
{
    assert(path_views(groups[i].1@) =~= groups[i].1@.map_values(|p: FilePath| p@));
}

} // verus!
