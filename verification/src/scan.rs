//! Which of the things found in directories take part in a search.

use crate::entry::{entry_of, path_of, records, FileEntry, FileRecord, Probe};
use crate::path::{
    components, file_name_of, part_views, path_views, same_path, Component, FilePath, Part, DOT,
};
use std::collections::HashSet;
use vstd::prelude::*;

verus! {

/// The directories to search: the first, and the second where there is one and it
/// is another path.
pub fn scan_folders(first: FilePath, second: Option<FilePath>) -> (r: Vec<FilePath>)
    ensures
        path_views(r@) == match second {
            Some(other) => if same_path(other@, first@) {
                seq![first@]
            } else {
                seq![first@, other@]
            },
            None => seq![first@],
        },
{
    let mut r: Vec<FilePath> = Vec::new();
    match second {
        Some(other) => {
            let again = other.same(&first);
            r.push(first);
            if !again {
                r.push(other);
            }
        },
        None => {
            r.push(first);
        },
    }
    assert(path_views(r@) =~= match second {
        Some(other) => if same_path(other@, first@) {
            seq![first@]
        } else {
            seq![first@, other@]
        },
        None => seq![first@],
    });
    r
}

/// The directory whose files are taken for originals: the one that was asked for,
/// else the first one to search.
pub fn preferred_folder(prefer: Option<FilePath>, first: FilePath) -> (r: FilePath)
    ensures
        r@ == match prefer {
            Some(path) => path@,
            None => first@,
        },
{
    match prefer {
        Some(path) => path,
        None => first,
    }
}

/// Whether so many files can have duplicates among them.
pub fn enough_files(count: usize) -> (r: bool)
    ensures
        r == (count >= 2),
{
    count >= 2
}

/// What kind of thing a directory entry is; `Unknown` where that could not be told.
pub enum EntryKind {
    Dir,
    File,
    Other,
    Unknown,
}

/// An entry of a directory.
pub struct Listed {
    pub path: FilePath,
    pub kind: EntryKind,
}

/// A directory to search: whether it is there, and what it lists where that could
/// be read.
pub struct FolderListing {
    pub found: bool,
    pub entries: Option<Vec<Listed>>,
}

/// Whether a name is hidden: it begins with a full stop.
pub open spec fn hidden_name(name: Seq<u8>) -> bool {
    name.len() > 0 && name[0] == DOT
}

/// Whether a path is hidden: its name is.
pub open spec fn hidden(path: Seq<u8>) -> bool {
    match file_name_of(path) {
        Some(name) => hidden_name(name),
        None => false,
    }
}

/// Whether a path is hidden.
pub fn is_hidden(path: &FilePath) -> (r: bool)
    ensures
        r == hidden(path@),
{
    match path.file_name() {
        Some(name) => name.len() > 0 && name[0] == DOT,
        None => false,
    }
}

/// The directories, or the files, among the entries of a directory, without the
/// hidden ones where those are skipped.
pub open spec fn chosen(entries: Seq<Listed>, dirs: bool, skip_hidden: bool) -> Seq<Seq<u8>>
    decreases entries.len(),
{
    if entries.len() == 0 {
        Seq::empty()
    } else {
        let front = chosen(entries.drop_last(), dirs, skip_hidden);
        let x = entries.last();
        let wanted = if dirs {
            x.kind is Dir
        } else {
            x.kind is File
        };
        if wanted && !(skip_hidden && hidden(x.path@)) {
            front.push(x.path@)
        } else {
            front
        }
    }
}

/// What is chosen in one directory to search: nothing where it is missing or could
/// not be read.
pub open spec fn chosen_in(folder: FolderListing, dirs: bool, skip_hidden: bool) -> Seq<Seq<u8>> {
    match folder.entries {
        Some(entries) => if folder.found {
            chosen(entries@, dirs, skip_hidden)
        } else {
            Seq::empty()
        },
        None => Seq::empty(),
    }
}

/// What is chosen in all directories to search, one after the other.
pub open spec fn chosen_in_all(
    folders: Seq<FolderListing>,
    dirs: bool,
    skip_hidden: bool,
) -> Seq<Seq<u8>>
    decreases folders.len(),
{
    if folders.len() == 0 {
        Seq::empty()
    } else {
        chosen_in_all(folders.drop_last(), dirs, skip_hidden) + chosen_in(
            folders.last(),
            dirs,
            skip_hidden,
        )
    }
}

/// The places of the directories that are missing.
pub open spec fn missing_folders(folders: Seq<FolderListing>) -> Seq<usize>
    decreases folders.len(),
{
    if folders.len() == 0 {
        Seq::empty()
    } else if folders.last().found {
        missing_folders(folders.drop_last())
    } else {
        missing_folders(folders.drop_last()).push((folders.len() - 1) as usize)
    }
}

/// What to do with the directories to search: report the missing ones, walk the
/// subdirectories, look at the files.
pub struct ScanPlan {
    pub missing: Vec<usize>,
    pub top_dirs: Vec<FilePath>,
    pub direct: Vec<FilePath>,
}

fn choose_entries(
    entries: Vec<Listed>,
    skip_hidden: bool,
    top_dirs: &mut Vec<FilePath>,
    direct: &mut Vec<FilePath>,
)
    ensures
        path_views(final(top_dirs)@) == path_views(old(top_dirs)@) + chosen(
            entries@,
            true,
            skip_hidden,
        ),
        path_views(final(direct)@) == path_views(old(direct)@) + chosen(
            entries@,
            false,
            skip_hidden,
        ),
{
    let ghost dirs0 = path_views(top_dirs@);
    let ghost files0 = path_views(direct@);
    proof {
        assert(entries@.take(0) =~= Seq::empty());
        assert(dirs0 + chosen(entries@.take(0), true, skip_hidden) =~= dirs0);
        assert(files0 + chosen(entries@.take(0), false, skip_hidden) =~= files0);
    }
    for entry in it: entries
        invariant
            it.seq() == entries@,
            path_views(top_dirs@) == dirs0 + chosen(
                entries@.take(it.index() as int),
                true,
                skip_hidden,
            ),
            path_views(direct@) == files0 + chosen(
                entries@.take(it.index() as int),
                false,
                skip_hidden,
            ),
    {
        let ghost n = it.index() as int;
        let ghost front = entries@.take(n);
        let ghost next = entries@.take(n + 1);
        let ghost path = entry.path@;
        proof {
            assert(next.drop_last() =~= front);
            assert(next.last() == entry);
        }
        let skip = skip_hidden && is_hidden(&entry.path);
        if !skip {
            match entry.kind {
                EntryKind::Dir => {
                    let ghost before = path_views(top_dirs@);
                    top_dirs.push(entry.path);
                    assert(path_views(top_dirs@) =~= before.push(path));
                },
                EntryKind::File => {
                    let ghost before = path_views(direct@);
                    direct.push(entry.path);
                    assert(path_views(direct@) =~= before.push(path));
                },
                _ => {},
            }
        }
        proof {
            assert(path_views(top_dirs@) =~= dirs0 + chosen(next, true, skip_hidden));
            assert(path_views(direct@) =~= files0 + chosen(next, false, skip_hidden));
        }
    }
    assert(entries@.take(entries@.len() as int) =~= entries@);
}

/// Decides what to do with the directories to search.
pub fn plan_scan(folders: Vec<FolderListing>, skip_hidden: bool) -> (r: ScanPlan)
    ensures
        r.missing@ == missing_folders(folders@),
        path_views(r.top_dirs@) == chosen_in_all(folders@, true, skip_hidden),
        path_views(r.direct@) == chosen_in_all(folders@, false, skip_hidden),
{
    let mut missing: Vec<usize> = Vec::new();
    let mut top_dirs: Vec<FilePath> = Vec::new();
    let mut direct: Vec<FilePath> = Vec::new();
    let count: usize = folders.len();
    let mut i: usize = 0;
    proof {
        assert(folders@.take(0) =~= Seq::empty());
        assert(path_views(top_dirs@) =~= Seq::empty());
        assert(path_views(direct@) =~= Seq::empty());
    }
    for folder in it: folders
        invariant
            it.seq() == folders@,
            count == folders@.len(),
            i == it.index(),
            missing@ == missing_folders(folders@.take(it.index() as int)),
            path_views(top_dirs@) == chosen_in_all(
                folders@.take(it.index() as int),
                true,
                skip_hidden,
            ),
            path_views(direct@) == chosen_in_all(
                folders@.take(it.index() as int),
                false,
                skip_hidden,
            ),
    {
        let ghost n = it.index() as int;
        let ghost next = folders@.take(n + 1);
        proof {
            assert(next.drop_last() =~= folders@.take(n));
            assert(next.last() == folder);
            assert(chosen_in_all(folders@.take(n), true, skip_hidden) + Seq::<Seq<u8>>::empty()
                =~= chosen_in_all(folders@.take(n), true, skip_hidden));
            assert(chosen_in_all(folders@.take(n), false, skip_hidden) + Seq::<Seq<u8>>::empty()
                =~= chosen_in_all(folders@.take(n), false, skip_hidden));
        }
        if !folder.found {
            missing.push(i);
        } else if let Some(entries) = folder.entries {
            choose_entries(entries, skip_hidden, &mut top_dirs, &mut direct);
        }
        i = i + 1;
    }
    assert(folders@.take(folders@.len() as int) =~= folders@);
    ScanPlan { missing, top_dirs, direct }
}

/// Whether a thing of this name below a directory is looked at, or walked where it
/// is a directory: hidden things are not where those are skipped.
pub open spec fn entered(name: Seq<u8>, skip_hidden: bool) -> bool {
    !(skip_hidden && hidden_name(name))
}

/// Whether a thing of this name below a directory is looked at.
pub fn enters(name: &[u8], skip_hidden: bool) -> (r: bool)
    ensures
        r == entered(name@, skip_hidden),
{
    !(skip_hidden && name.len() > 0 && name[0] == DOT)
}

/// Whether a path takes part in the search of the directory `base`: every name in it
/// below `base` is looked at. The names of `base` itself do not count.
pub open spec fn shown(path: Seq<u8>, base: Seq<u8>, skip_hidden: bool) -> bool {
    forall|i: int|
        components(base).len() <= i < components(path).len() ==> match #[trigger] components(
            path,
        )[i] {
            Component::Normal(name) => entered(name, skip_hidden),
            _ => true,
        }
}

/// Whether a path takes part in the search of the directory `base`.
fn shows(path: &FilePath, base: &FilePath, skip_hidden: bool) -> (r: bool)
    ensures
        r == shown(path@, base@, skip_hidden),
{
    if !skip_hidden {
        return true;
    }
    let parts = path.key().parts;
    let ghost c = components(path@);
    assert(part_views(parts@) == c);
    let mut i: usize = base.key().parts.len();
    while i < parts.len()
        invariant
            skip_hidden,
            components(base@).len() <= i,
            part_views(parts@) == c,
            c == components(path@),
            forall|j: int|
                components(base@).len() <= j < i && j < c.len() ==> match #[trigger] c[j] {
                    Component::Normal(name) => entered(name, skip_hidden),
                    _ => true,
                },
        decreases parts@.len() - i,
    {
        assert(c[i as int] == parts@[i as int]@);
        if let Part::Normal(name) = &parts[i] {
            if !enters(name.as_slice(), skip_hidden) {
                return false;
            }
        }
        i = i + 1;
    }
    true
}

/// A thing that was found below a directory.
pub struct Found {
    pub probe: Probe,
    pub is_file: bool,
    pub is_symlink: bool,
}

/// The entries for the paths that were looked at, in their order.
pub open spec fn entries_of(
    probes: Seq<Probe>,
    min_size: u64,
    hdd_devs: Set<u64>,
) -> Seq<FileRecord>
    decreases probes.len(),
{
    if probes.len() == 0 {
        Seq::empty()
    } else {
        let front = entries_of(probes.drop_last(), min_size, hdd_devs);
        match entry_of(probes.last(), min_size, hdd_devs) {
            Some(entry) => front.push(entry),
            None => front,
        }
    }
}

/// What was looked at of the regular files that were found, links left out.
pub open spec fn regular(found: Seq<Found>) -> Seq<Probe>
    decreases found.len(),
{
    if found.len() == 0 {
        Seq::empty()
    } else {
        let front = regular(found.drop_last());
        if found.last().is_file && !found.last().is_symlink {
            front.push(found.last().probe)
        } else {
            front
        }
    }
}

/// What takes part of the things that were found below `base`.
pub open spec fn visible(found: Seq<Found>, base: Seq<u8>, skip_hidden: bool) -> Seq<Found> {
    found.filter(|f: Found| shown(path_of(f.probe), base, skip_hidden))
}

/// The files of the subtree of `base` that take part: the regular ones, without those
/// that are hidden or lie in something hidden where that is skipped.
pub fn walk_subtree(
    found: Vec<Found>,
    base: &FilePath,
    skip_hidden: bool,
    hdd_devs: &HashSet<u64>,
) -> (r: Vec<FileEntry>)
    ensures
        records(r@) == entries_of(regular(visible(found@, base@, skip_hidden)), 0, hdd_devs@),
{
    let mut r: Vec<FileEntry> = Vec::new();
    proof {
        reveal(Seq::filter);
        assert(found@.take(0) =~= Seq::empty());
        assert(regular(visible(found@.take(0), base@, skip_hidden)) =~= Seq::empty());
        assert(records(r@) =~= Seq::empty());
    }
    for thing in it: found
        invariant
            it.seq() == found@,
            records(r@) == entries_of(
                regular(visible(found@.take(it.index() as int), base@, skip_hidden)),
                0,
                hdd_devs@,
            ),
    {
        let ghost n = it.index() as int;
        let ghost next = found@.take(n + 1);
        let ghost before = records(r@);
        proof {
            reveal(Seq::filter);
            assert(next.drop_last() =~= found@.take(n));
            assert(next.last() == thing);
            let seen = visible(found@.take(n), base@, skip_hidden);
            assert(seen.push(thing).drop_last() =~= seen);
            assert(regular(seen).push(thing.probe).drop_last() =~= regular(seen));
        }
        let wanted = match &thing.probe.absolute {
            Some(path) => shows(path, base, skip_hidden),
            None => shows(&thing.probe.path, base, skip_hidden),
        };
        if wanted && thing.is_file && !thing.is_symlink {
            if let Some(entry) = FileEntry::from_path(thing.probe, 0, hdd_devs) {
                r.push(entry);
                assert(records(r@) =~= before.push(entry@));
            }
        }
    }
    assert(found@.take(found@.len() as int) =~= found@);
    r
}

/// The files of the subtrees, one subtree after the other.
pub open spec fn all_records(subtrees: Seq<Vec<FileEntry>>) -> Seq<FileRecord>
    decreases subtrees.len(),
{
    if subtrees.len() == 0 {
        Seq::empty()
    } else {
        all_records(subtrees.drop_last()) + records(subtrees.last()@)
    }
}

/// Collects the files that take part: those directly in the directories to search,
/// then those of the subtrees. Empty ones take part.
pub fn collect_files(
    direct: Vec<Probe>,
    subtrees: Vec<Vec<FileEntry>>,
    hdd_devs: &HashSet<u64>,
) -> (r: Vec<FileEntry>)
    ensures
        records(r@) == entries_of(direct@, 0, hdd_devs@) + all_records(subtrees@),
{
    let mut all: Vec<FileEntry> = Vec::new();
    proof {
        assert(direct@.take(0) =~= Seq::empty());
        assert(records(all@) =~= entries_of(direct@.take(0), 0, hdd_devs@));
    }
    for probe in it: direct
        invariant
            it.seq() == direct@,
            records(all@) == entries_of(direct@.take(it.index() as int), 0, hdd_devs@),
    {
        let ghost n = it.index() as int;
        let ghost before = records(all@);
        proof {
            assert(direct@.take(n + 1).drop_last() =~= direct@.take(n));
            assert(direct@.take(n + 1).last() == probe);
        }
        if let Some(entry) = FileEntry::from_path(probe, 0, hdd_devs) {
            all.push(entry);
            assert(records(all@) =~= before.push(entry@));
        }
    }
    assert(direct@.take(direct@.len() as int) =~= direct@);
    let ghost start = entries_of(direct@, 0, hdd_devs@);
    proof {
        assert(subtrees@.take(0) =~= Seq::empty());
        assert(start + all_records(subtrees@.take(0)) =~= start);
    }
    for chunk in it: subtrees
        invariant
            it.seq() == subtrees@,
            records(all@) == start + all_records(subtrees@.take(it.index() as int)),
    {
        let ghost n = it.index() as int;
        let ghost before = records(all@);
        let ghost more = records(chunk@);
        proof {
            assert(subtrees@.take(n + 1).drop_last() =~= subtrees@.take(n));
            assert(subtrees@.take(n + 1).last() == chunk);
        }
        let mut chunk = chunk;
        all.append(&mut chunk);
        proof {
            assert(records(all@) =~= before + more);
            assert(before + more =~= start + all_records(subtrees@.take(n + 1)));
        }
    }
    assert(subtrees@.take(subtrees@.len() as int) =~= subtrees@);
    all
}

/// Where hidden things are skipped, none is chosen.
pub proof fn lemma_chosen_not_hidden(folders: Seq<FolderListing>, dirs: bool)
    ensures
        forall|i: int|
            0 <= i < chosen_in_all(folders, dirs, true).len() ==> !hidden(
                #[trigger] chosen_in_all(folders, dirs, true)[i],
            ),
    decreases folders.len(),
{
    if folders.len() > 0 {
        let front = chosen_in_all(folders.drop_last(), dirs, true);
        let all = chosen_in_all(folders, dirs, true);
        lemma_chosen_not_hidden(folders.drop_last(), dirs);
        if let Some(entries) = folders.last().entries {
            lemma_chosen_here_not_hidden(entries@, dirs);
        }
        assert forall|i: int| 0 <= i < all.len() implies !hidden(#[trigger] all[i]) by {
            if i < front.len() {
                assert(all[i] == front[i]);
            } else {
                assert(all[i] == chosen_in(folders.last(), dirs, true)[i - front.len()]);
            }
        }
    }
}

proof fn lemma_chosen_here_not_hidden(entries: Seq<Listed>, dirs: bool)
    ensures
        forall|i: int|
            0 <= i < chosen(entries, dirs, true).len() ==> !hidden(
                #[trigger] chosen(entries, dirs, true)[i],
            ),
    decreases entries.len(),
{
    if entries.len() > 0 {
        let front = chosen(entries.drop_last(), dirs, true);
        let all = chosen(entries, dirs, true);
        lemma_chosen_here_not_hidden(entries.drop_last(), dirs);
        assert forall|i: int| 0 <= i < all.len() implies !hidden(#[trigger] all[i]) by {
            if i < front.len() {
                assert(all[i] == front[i]);
            }
        }
    }
}

} // verus!
