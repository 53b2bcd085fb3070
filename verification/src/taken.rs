//! What takes part in a search, told by the bytes of the names: nothing is passed
//! over but what begins with a full stop, and that only where such things are skipped.

use crate::entry::{entry_of, path_of, records, FileEntry, FileRecord, Probe};
use crate::path::{components, file_name_of, Component};
use crate::scan::{
    all_records, chosen, chosen_in, chosen_in_all, entered, entries_of, hidden, missing_folders,
    regular, shown, visible, FolderListing, Found, Listed,
};
use vstd::prelude::*;

verus! {

/// The entries that a place in the folders to search stands for: the one at `i` of what
/// the folder at `f` lists.
pub open spec fn listed_at(folders: Seq<FolderListing>, f: int, i: int) -> Listed {
    folders[f].entries->0@[i]
}

/// Whether there is such a place: the folder is there and could be read.
pub open spec fn is_place(folders: Seq<FolderListing>, f: int, i: int) -> bool {
    0 <= f < folders.len() && folders[f].found && folders[f].entries is Some && 0 <= i
        < folders[f].entries->0@.len()
}

/// Whether an entry of a folder is one to walk, or to look at, told by its kind and the
/// first byte of its name.
pub open spec fn takes_part(entry: Listed, dirs: bool, skip_hidden: bool) -> bool {
    (if dirs {
        entry.kind is Dir
    } else {
        entry.kind is File
    }) && (skip_hidden ==> match file_name_of(entry.path@) {
        Some(name) => name.len() == 0 || name[0] != 0x2e,
        None => true,
    })
}

proof fn lemma_chosen_here(entries: Seq<Listed>, dirs: bool, skip_hidden: bool, i: int)
    requires
        0 <= i < entries.len(),
        takes_part(entries[i], dirs, skip_hidden),
    ensures
        chosen(entries, dirs, skip_hidden).contains(entries[i].path@),
    decreases entries.len(),
{
    let front = entries.drop_last();
    let all = chosen(entries, dirs, skip_hidden);
    if i < front.len() {
        lemma_chosen_here(front, dirs, skip_hidden, i);
        let m = choose|m: int|
            0 <= m < chosen(front, dirs, skip_hidden).len() && chosen(front, dirs, skip_hidden)[m]
                == entries[i].path@;
        assert(all[m] == entries[i].path@);
    } else {
        assert(all[all.len() - 1] == entries[i].path@);
    }
}

/// Every directory that a folder lists is walked, and every file that it lists is
/// looked at, unless its name begins with a full stop and such things are skipped.
pub proof fn lemma_listed_take_part(
    folders: Seq<FolderListing>,
    dirs: bool,
    skip_hidden: bool,
    f: int,
    i: int,
)
    requires
        is_place(folders, f, i),
        takes_part(listed_at(folders, f, i), dirs, skip_hidden),
    ensures
        chosen_in_all(folders, dirs, skip_hidden).contains(listed_at(folders, f, i).path@),
    decreases folders.len(),
{
    let front = folders.drop_last();
    let before = chosen_in_all(front, dirs, skip_hidden);
    let all = chosen_in_all(folders, dirs, skip_hidden);
    let path = listed_at(folders, f, i).path@;
    if f < front.len() {
        assert(front[f] == folders[f]);
        lemma_listed_take_part(front, dirs, skip_hidden, f, i);
        let m = choose|m: int| 0 <= m < before.len() && before[m] == path;
        assert(all[m] == path);
    } else {
        lemma_chosen_here(folders[f].entries->0@, dirs, skip_hidden, i);
        let here = chosen_in(folders[f], dirs, skip_hidden);
        let m = choose|m: int| 0 <= m < here.len() && here[m] == path;
        assert(all[before.len() + m] == path);
    }
}

proof fn lemma_chosen_here_from(
    entries: Seq<Listed>,
    dirs: bool,
    skip_hidden: bool,
    p: int,
    q: int,
) -> (r: (int, int))
    requires
        0 <= p <= q < chosen(entries, dirs, skip_hidden).len(),
    ensures
        0 <= r.0 <= r.1 < entries.len(),
        p < q ==> r.0 < r.1,
        chosen(entries, dirs, skip_hidden)[p] == entries[r.0].path@,
        chosen(entries, dirs, skip_hidden)[q] == entries[r.1].path@,
        takes_part(entries[r.0], dirs, skip_hidden),
        takes_part(entries[r.1], dirs, skip_hidden),
    decreases entries.len(),
{
    let front = entries.drop_last();
    let before = chosen(front, dirs, skip_hidden);
    if q < before.len() {
        lemma_chosen_here_from(front, dirs, skip_hidden, p, q)
    } else if p < before.len() {
        let r = lemma_chosen_here_from(front, dirs, skip_hidden, p, p);
        (r.0, entries.len() - 1)
    } else {
        (entries.len() - 1, entries.len() - 1)
    }
}

/// Nothing else takes part, everything does so once, and in the order of the folders
/// and of what each lists: of two paths that take part, the earlier one comes from an
/// earlier place.
pub proof fn lemma_part_takers_are_listed(
    folders: Seq<FolderListing>,
    dirs: bool,
    skip_hidden: bool,
    p: int,
    q: int,
) -> (r: ((int, int), (int, int)))
    requires
        0 <= p <= q < chosen_in_all(folders, dirs, skip_hidden).len(),
    ensures
        is_place(folders, r.0.0, r.0.1),
        is_place(folders, r.1.0, r.1.1),
        chosen_in_all(folders, dirs, skip_hidden)[p] == listed_at(folders, r.0.0, r.0.1).path@,
        chosen_in_all(folders, dirs, skip_hidden)[q] == listed_at(folders, r.1.0, r.1.1).path@,
        takes_part(listed_at(folders, r.0.0, r.0.1), dirs, skip_hidden),
        takes_part(listed_at(folders, r.1.0, r.1.1), dirs, skip_hidden),
        p < q ==> r.0.0 < r.1.0 || r.0.0 == r.1.0 && r.0.1 < r.1.1,
    decreases folders.len(),
{
    let front = folders.drop_last();
    let before = chosen_in_all(front, dirs, skip_hidden);
    let n = before.len();
    let last = folders.len() - 1;
    if q < n {
        let r = lemma_part_takers_are_listed(front, dirs, skip_hidden, p, q);
        assert(front[r.0.0] == folders[r.0.0] && front[r.1.0] == folders[r.1.0]);
        r
    } else if p < n {
        let r = lemma_part_takers_are_listed(front, dirs, skip_hidden, p, p);
        assert(front[r.0.0] == folders[r.0.0]);
        let entries = folders.last().entries->0@;
        let t = lemma_chosen_here_from(entries, dirs, skip_hidden, q - n, q - n);
        (r.0, (last, t.0))
    } else {
        let entries = folders.last().entries->0@;
        let t = lemma_chosen_here_from(entries, dirs, skip_hidden, p - n, q - n);
        ((last, t.0), (last, t.1))
    }
}

/// A folder is reported missing exactly where it is, once, and in the order of the
/// folders.
pub proof fn lemma_missing_are_reported(folders: Seq<FolderListing>)
    requires
        folders.len() <= usize::MAX,
    ensures
        forall|i: usize| #[trigger]
            missing_folders(folders).contains(i) <==> i < folders.len() && !folders[i as int].found,
        forall|p: int, q: int|
            #![trigger missing_folders(folders)[p], missing_folders(folders)[q]]
            0 <= p < q < missing_folders(folders).len() ==> missing_folders(folders)[p]
                < missing_folders(folders)[q],
    decreases folders.len(),
{
    if folders.len() > 0 {
        let front = folders.drop_last();
        let before = missing_folders(front);
        let all = missing_folders(folders);
        lemma_missing_are_reported(front);
        assert forall|i: usize| #[trigger] all.contains(i) <==> i < folders.len()
            && !folders[i as int].found by {
            if all.contains(i) {
                let m = choose|m: int| 0 <= m < all.len() && all[m] == i;
                if m < before.len() {
                    assert(before[m] == i);
                    assert(before.contains(i));
                    assert(front[i as int] == folders[i as int]);
                }
            }
            if i < folders.len() && !folders[i as int].found {
                if i < front.len() {
                    assert(front[i as int] == folders[i as int]);
                    assert(before.contains(i));
                    let m = choose|m: int| 0 <= m < before.len() && before[m] == i;
                    assert(all[m] == i);
                } else {
                    assert(all[all.len() - 1] == i);
                }
            }
        }
        assert forall|p: int, q: int|
            #![trigger all[p], all[q]]
            0 <= p < q < all.len() implies all[p] < all[q] by {
            if q < before.len() {
                assert(before[p] < before[q]);
            } else if p < before.len() {
                assert(before.contains(before[p]));
            }
        }
    }
}

/// A name is passed over exactly where it begins with a full stop and such things are
/// skipped, and a path is hidden exactly where its last name begins with one.
pub proof fn lemma_hidden_by_bytes(name: Seq<u8>, path: Seq<u8>, skip_hidden: bool)
    ensures
        entered(name, skip_hidden) <==> !(skip_hidden && name.len() > 0 && name[0] == 0x2e),
        hidden(path) <==> match file_name_of(path) {
            Some(last) => last.len() > 0 && last[0] == 0x2e,
            None => false,
        },
{
}

/// Whether no name on the way from `base` to `path` begins with a full stop.
pub open spec fn has_plain_names(path: Seq<u8>, base: Seq<u8>) -> bool {
    forall|i: int|
        components(base).len() <= i < components(path).len() ==> match #[trigger] components(
            path,
        )[i] {
            Component::Normal(name) => name.len() == 0 || name[0] != 0x2e,
            _ => true,
        }
}

/// Whether an entry is the one of a file that was found: it has the absolute path where
/// there is one, the resolved one where there is one, and what the file system says of
/// the file itself.
pub open spec fn is_entry_of(e: FileRecord, probe: Probe, hdd: Set<u64>) -> bool {
    &&& probe.meta is Some
    &&& probe.meta->0.is_file
    &&& e.path == if probe.absolute is Some {
        probe.absolute->0@
    } else {
        probe.path@
    }
    &&& e.resolved == if probe.resolved is Some {
        probe.resolved->0@
    } else {
        e.path
    }
    &&& e.dev == probe.meta->0.dev
    &&& e.ino == probe.meta->0.ino
    &&& e.size == probe.meta->0.len
    &&& e.on_hdd == hdd.contains(probe.meta->0.dev)
}

/// Every regular file that was looked at has an entry among what is collected.
pub proof fn lemma_files_are_collected(probes: Seq<Probe>, hdd: Set<u64>, i: int) -> (m: int)
    requires
        0 <= i < probes.len(),
        probes[i].meta is Some,
        probes[i].meta->0.is_file,
    ensures
        0 <= m < entries_of(probes, 0, hdd).len(),
        is_entry_of(entries_of(probes, 0, hdd)[m], probes[i], hdd),
    decreases probes.len(),
{
    let front = probes.drop_last();
    if i < front.len() {
        lemma_files_are_collected(front, hdd, i)
    } else {
        entries_of(probes, 0, hdd).len() - 1
    }
}

/// Nothing else has an entry among what is collected, every file has one, and in the
/// order in which they were looked at.
pub proof fn lemma_collected_are_files(probes: Seq<Probe>, hdd: Set<u64>, p: int, q: int) -> (r: (
    int,
    int,
))
    requires
        0 <= p <= q < entries_of(probes, 0, hdd).len(),
    ensures
        0 <= r.0 <= r.1 < probes.len(),
        p < q ==> r.0 < r.1,
        is_entry_of(entries_of(probes, 0, hdd)[p], probes[r.0], hdd),
        is_entry_of(entries_of(probes, 0, hdd)[q], probes[r.1], hdd),
    decreases probes.len(),
{
    let front = probes.drop_last();
    let before = entries_of(front, 0, hdd);
    if q < before.len() {
        lemma_collected_are_files(front, hdd, p, q)
    } else if p < before.len() {
        let r = lemma_collected_are_files(front, hdd, p, p);
        (r.0, probes.len() - 1)
    } else {
        (probes.len() - 1, probes.len() - 1)
    }
}

/// A path takes part in the search of the directory `base` where hidden things are not
/// skipped, or where no name on the way from `base` to it begins with a full stop.
pub proof fn lemma_shown_by_bytes(path: Seq<u8>, base: Seq<u8>, skip_hidden: bool)
    ensures
        shown(path, base, skip_hidden) <==> !skip_hidden || has_plain_names(path, base),
{
    let c = components(path);
    let b = components(base).len();
    if skip_hidden && shown(path, base, skip_hidden) {
        assert forall|i: int| b <= i < c.len() implies match #[trigger] c[i] {
            Component::Normal(name) => name.len() == 0 || name[0] != 0x2e,
            _ => true,
        } by {
            if let Component::Normal(name) = c[i] {
                assert(entered(name, skip_hidden));
            }
        }
    }
    if !skip_hidden || has_plain_names(path, base) {
        assert forall|i: int| b <= i < c.len() implies match #[trigger] c[i] {
            Component::Normal(name) => entered(name, skip_hidden),
            _ => true,
        } by {
            if let Component::Normal(name) = c[i] {
                assert(entered(name, skip_hidden));
            }
        }
    }
}

/// Whether a thing that was found below `base` is a file to take: a regular one, no
/// link, that has metadata, with no name below `base` that begins with a full stop
/// where such things are skipped.
pub open spec fn is_taken(thing: Found, base: Seq<u8>, skip_hidden: bool) -> bool {
    &&& thing.is_file
    &&& !thing.is_symlink
    &&& thing.probe.meta is Some
    &&& thing.probe.meta->0.is_file
    &&& skip_hidden ==> has_plain_names(
        if thing.probe.absolute is Some {
            thing.probe.absolute->0@
        } else {
            thing.probe.path@
        },
        base,
    )
}

proof fn lemma_walk_step(found: Seq<Found>, base: Seq<u8>, skip_hidden: bool, hdd: Set<u64>)
    requires
        found.len() > 0,
    ensures
        ({
            let before = entries_of(
                regular(visible(found.drop_last(), base, skip_hidden)),
                0,
                hdd,
            );
            let all = entries_of(regular(visible(found, base, skip_hidden)), 0, hdd);
            if is_taken(found.last(), base, skip_hidden) {
                all.len() == before.len() + 1 && all.drop_last() == before && is_entry_of(
                    all.last(),
                    found.last().probe,
                    hdd,
                )
            } else {
                all == before
            }
        }),
{
    reveal(Seq::filter);
    let x = found.last();
    let seen = visible(found.drop_last(), base, skip_hidden);
    lemma_shown_by_bytes(path_of(x.probe), base, skip_hidden);
    assert(seen.push(x).drop_last() =~= seen);
    assert(regular(seen).push(x.probe).drop_last() =~= regular(seen));
    let before = entries_of(regular(seen), 0, hdd);
    let all = entries_of(regular(visible(found, base, skip_hidden)), 0, hdd);
    if is_taken(x, base, skip_hidden) {
        assert(entry_of(x.probe, 0, hdd) is Some);
        assert(all == before.push(entry_of(x.probe, 0, hdd)->0));
        assert(all.drop_last() =~= before);
    }
}

/// Every regular file below `base` is taken, unless a name on the way to it begins with
/// a full stop and such things are skipped.
pub proof fn lemma_regular_files_are_taken(
    found: Seq<Found>,
    base: Seq<u8>,
    skip_hidden: bool,
    hdd: Set<u64>,
    i: int,
) -> (m: int)
    requires
        0 <= i < found.len(),
        is_taken(found[i], base, skip_hidden),
    ensures
        0 <= m < entries_of(regular(visible(found, base, skip_hidden)), 0, hdd).len(),
        is_entry_of(
            entries_of(regular(visible(found, base, skip_hidden)), 0, hdd)[m],
            found[i].probe,
            hdd,
        ),
    decreases found.len(),
{
    lemma_walk_step(found, base, skip_hidden, hdd);
    let front = found.drop_last();
    let all = entries_of(regular(visible(found, base, skip_hidden)), 0, hdd);
    if i < front.len() {
        let m = lemma_regular_files_are_taken(front, base, skip_hidden, hdd, i);
        if is_taken(found.last(), base, skip_hidden) {
            assert(all.drop_last()[m] == all[m]);
        }
        m
    } else {
        all.len() - 1
    }
}

/// Nothing else is taken below `base`, every file is taken once, and in the order in
/// which they were found.
pub proof fn lemma_taken_are_regular_files(
    found: Seq<Found>,
    base: Seq<u8>,
    skip_hidden: bool,
    hdd: Set<u64>,
    p: int,
    q: int,
) -> (r: (int, int))
    requires
        0 <= p <= q < entries_of(regular(visible(found, base, skip_hidden)), 0, hdd).len(),
    ensures
        0 <= r.0 <= r.1 < found.len(),
        p < q ==> r.0 < r.1,
        is_taken(found[r.0], base, skip_hidden),
        is_taken(found[r.1], base, skip_hidden),
        is_entry_of(
            entries_of(regular(visible(found, base, skip_hidden)), 0, hdd)[p],
            found[r.0].probe,
            hdd,
        ),
        is_entry_of(
            entries_of(regular(visible(found, base, skip_hidden)), 0, hdd)[q],
            found[r.1].probe,
            hdd,
        ),
    decreases found.len(),
{
    if found.len() == 0 {
        assert(visible(found, base, skip_hidden).len() == 0) by {
            reveal(Seq::filter);
        }
        (0, 0)
    } else {
        lemma_walk_step(found, base, skip_hidden, hdd);
        let front = found.drop_last();
        let before = entries_of(regular(visible(front, base, skip_hidden)), 0, hdd);
        let all = entries_of(regular(visible(found, base, skip_hidden)), 0, hdd);
        let last = found.len() - 1;
        if q < before.len() {
            let r = lemma_taken_are_regular_files(front, base, skip_hidden, hdd, p, q);
            if is_taken(found.last(), base, skip_hidden) {
                assert(all.drop_last()[p] == all[p] && all.drop_last()[q] == all[q]);
            }
            r
        } else if p < before.len() {
            let r = lemma_taken_are_regular_files(front, base, skip_hidden, hdd, p, p);
            assert(all.drop_last()[p] == all[p]);
            (r.0, last)
        } else {
            (last, last)
        }
    }
}

/// The files of the subtrees follow one another: the one at `i` of the subtree at `t`
/// stands behind all those of the subtrees before, and nothing else stands there.
pub proof fn lemma_subtrees_follow(subtrees: Seq<Vec<FileEntry>>)
    ensures
        all_records(subtrees) == subtrees.map_values(
            |t: Vec<FileEntry>| t@.map_values(|e: FileEntry| e@),
        ).flatten(),
    decreases subtrees.len(),
{
    let g = |t: Vec<FileEntry>| t@.map_values(|e: FileEntry| e@);
    let parts = subtrees.map_values(g);
    if subtrees.len() > 0 {
        let front = subtrees.drop_last();
        lemma_subtrees_follow(front);
        assert(parts =~= front.map_values(g).push(g(subtrees.last())));
        front.map_values(g).lemma_flatten_push(g(subtrees.last()));
        assert(records(subtrees.last()@) =~= g(subtrees.last()));
    } else {
        assert(parts.flatten() =~= Seq::empty());
    }
}

} // verus!
