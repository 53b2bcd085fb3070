//! Skipping hidden things: it takes hidden files out of a search and changes nothing else.

use crate::entry::{entry_of, path_of, records, FileEntry, FileRecord, Probe};
use crate::path::{components, file_name_of, path_starts_with, Component};
use crate::scan::{
    all_records, chosen, chosen_in, chosen_in_all, entered, entries_of, hidden, regular, shown,
    visible, FolderListing, Found, Listed,
};
use vstd::multiset::Multiset;
use vstd::prelude::*;
use vstd::seq_lib::{lemma_multiset_commutative, to_multiset_len};

verus! {

/// What is there to be found: what looking at a path gives, the absolute form of a
/// directory, and all that is found below it.
pub struct Tree {
    pub probe_of: spec_fn(Seq<u8>) -> Probe,
    pub base_of: spec_fn(Seq<u8>) -> Seq<u8>,
    pub found_in: spec_fn(Seq<u8>) -> Seq<Found>,
}

/// The files of the subtree of a directory.
pub open spec fn walked(tree: Tree, dir: Seq<u8>, skip_hidden: bool, hdd: Set<u64>) -> Seq<
    FileRecord,
> {
    entries_of(
        regular(visible((tree.found_in)(dir), (tree.base_of)(dir), skip_hidden)),
        0,
        hdd,
    )
}

/// The files of the subtrees of directories, one after the other.
pub open spec fn all_walked(
    tree: Tree,
    dirs: Seq<Seq<u8>>,
    skip_hidden: bool,
    hdd: Set<u64>,
) -> Seq<FileRecord>
    decreases dirs.len(),
{
    if dirs.len() == 0 {
        Seq::empty()
    } else {
        all_walked(tree, dirs.drop_last(), skip_hidden, hdd) + walked(
            tree,
            dirs.last(),
            skip_hidden,
            hdd,
        )
    }
}

/// What looking at paths gives.
pub open spec fn probes_of(tree: Tree, paths: Seq<Seq<u8>>) -> Seq<Probe> {
    paths.map_values(tree.probe_of)
}

/// The files of a search of the directories.
pub open spec fn collected(
    tree: Tree,
    folders: Seq<FolderListing>,
    skip_hidden: bool,
    hdd: Set<u64>,
) -> Seq<FileRecord> {
    entries_of(probes_of(tree, chosen_in_all(folders, false, skip_hidden)), 0, hdd) + all_walked(
        tree,
        chosen_in_all(folders, true, skip_hidden),
        skip_hidden,
        hdd,
    )
}

/// The files that are not hidden below `base`.
pub open spec fn not_hidden(base: Seq<u8>) -> spec_fn(FileRecord) -> bool {
    |file: FileRecord| shown(file.path, base, true)
}

/// Whether the paths of what is found in a directory are put together of the path `base` of
/// the directory and the names on the way.
pub open spec fn grows_from(tree: Tree, entries: Seq<Listed>, base: Seq<u8>) -> bool {
    forall|i: int|
        0 <= i < entries.len() ==> {
            let path = (#[trigger] entries[i]).path@;
            &&& file_name_of(path) is Some
            &&& components(path_of((tree.probe_of)(path))) == components(base).push(
                Component::Normal(file_name_of(path)->0),
            )
            &&& components((tree.base_of)(path)) == components(base).push(
                Component::Normal(file_name_of(path)->0),
            )
            &&& forall|f: Found| #[trigger]
                (tree.found_in)(path).contains(f) ==> path_starts_with(
                    path_of(f.probe),
                    (tree.base_of)(path),
                )
        }
}

/// What collecting gives is what there is in the tree: where the files of the directories
/// were looked at and the subdirectories walked.
pub proof fn lemma_collected(
    tree: Tree,
    folders: Seq<FolderListing>,
    skip_hidden: bool,
    hdd: Set<u64>,
    subtrees: Seq<Vec<FileEntry>>,
)
    requires
        subtrees.len() == chosen_in_all(folders, true, skip_hidden).len(),
        forall|i: int|
            0 <= i < subtrees.len() ==> records((#[trigger] subtrees[i])@) == walked(
                tree,
                chosen_in_all(folders, true, skip_hidden)[i],
                skip_hidden,
                hdd,
            ),
    ensures
        entries_of(probes_of(tree, chosen_in_all(folders, false, skip_hidden)), 0, hdd)
            + all_records(subtrees) == collected(tree, folders, skip_hidden, hdd),
{
    lemma_all_walked(tree, chosen_in_all(folders, true, skip_hidden), skip_hidden, hdd, subtrees);
}

proof fn lemma_all_walked(
    tree: Tree,
    dirs: Seq<Seq<u8>>,
    skip_hidden: bool,
    hdd: Set<u64>,
    subtrees: Seq<Vec<FileEntry>>,
)
    requires
        subtrees.len() == dirs.len(),
        forall|i: int|
            0 <= i < subtrees.len() ==> records((#[trigger] subtrees[i])@) == walked(
                tree,
                dirs[i],
                skip_hidden,
                hdd,
            ),
    ensures
        all_records(subtrees) == all_walked(tree, dirs, skip_hidden, hdd),
    decreases dirs.len(),
{
    if dirs.len() > 0 {
        let front = subtrees.drop_last();
        assert forall|i: int| 0 <= i < front.len() implies records((#[trigger] front[i])@)
            == walked(tree, dirs.drop_last()[i], skip_hidden, hdd) by {
            assert(front[i] == subtrees[i]);
        }
        lemma_all_walked(tree, dirs.drop_last(), skip_hidden, hdd, front);
        let last = dirs.len() - 1;
        assert(records(subtrees[last]@) == walked(tree, dirs[last], skip_hidden, hdd));
    }
}

/// Below a directory, skipping hidden things is a filter of the files that are found
/// without skipping.
pub proof fn lemma_walk_is_filtered(found: Seq<Found>, base: Seq<u8>, hdd: Set<u64>)
    ensures
        entries_of(regular(visible(found, base, true)), 0, hdd) == entries_of(
            regular(visible(found, base, false)),
            0,
            hdd,
        ).filter(not_hidden(base)),
    decreases found.len(),
{
    reveal(Seq::filter);
    if found.len() > 0 {
        let front = found.drop_last();
        let f = found.last();
        lemma_walk_is_filtered(front, base, hdd);
        let some = visible(front, base, true);
        let all = visible(front, base, false);
        assert(shown(path_of(f.probe), base, false));
        assert(visible(found, base, false) == all.push(f));
        assert(all.push(f).drop_last() =~= all);
        assert(some.push(f).drop_last() =~= some);
        assert(regular(all).push(f.probe).drop_last() =~= regular(all));
        assert(regular(some).push(f.probe).drop_last() =~= regular(some));
        if f.is_file && !f.is_symlink {
            if let Some(entry) = entry_of(f.probe, 0, hdd) {
                let records = entries_of(regular(all), 0, hdd);
                assert(records.push(entry).drop_last() =~= records);
                assert(entry.path == path_of(f.probe));
            }
        }
    }
}

/// Not walking what is hidden changes nothing: of what is found below a directory, whatever
/// is not shown may be left out before.
pub proof fn lemma_pruned_walk(
    found: Seq<Found>,
    base: Seq<u8>,
    skip_hidden: bool,
    walk: spec_fn(Found) -> bool,
)
    requires
        forall|i: int|
            0 <= i < found.len() && shown(
                path_of((#[trigger] found[i]).probe),
                base,
                skip_hidden,
            ) ==> walk(found[i]),
    ensures
        visible(found.filter(walk), base, skip_hidden) == visible(found, base, skip_hidden),
    decreases found.len(),
{
    reveal(Seq::filter);
    if found.len() > 0 {
        let front = found.drop_last();
        assert forall|i: int|
            0 <= i < front.len() && shown(
                path_of((#[trigger] front[i]).probe),
                base,
                skip_hidden,
            ) implies walk(front[i]) by {
            assert(front[i] == found[i]);
        }
        lemma_pruned_walk(front, base, skip_hidden, walk);
        let f = found[found.len() - 1];
        assert(front.filter(walk).push(f).drop_last() =~= front.filter(walk));
        assert(shown(path_of(f.probe), base, skip_hidden) ==> walk(f));
    }
}

proof fn lemma_filter_all(
    s: Seq<FileRecord>,
    p: spec_fn(FileRecord) -> bool,
    q: spec_fn(FileRecord) -> bool,
)
    requires
        forall|i: int| 0 <= i < s.len() ==> p(#[trigger] s[i]) == q(s[i]),
    ensures
        s.filter(p) == s.filter(q),
    decreases s.len(),
{
    reveal(Seq::filter);
    if s.len() > 0 {
        let front = s.drop_last();
        assert forall|i: int| 0 <= i < front.len() implies p(#[trigger] front[i]) == q(front[i]) by {
            assert(front[i] == s[i]);
        }
        lemma_filter_all(front, p, q);
        assert(p(s[s.len() - 1]) == q(s[s.len() - 1]));
    }
}

proof fn lemma_filter_none(s: Seq<FileRecord>, p: spec_fn(FileRecord) -> bool)
    requires
        forall|i: int| 0 <= i < s.len() ==> !p(#[trigger] s[i]),
    ensures
        s.filter(p) == Seq::<FileRecord>::empty(),
    decreases s.len(),
{
    reveal(Seq::filter);
    if s.len() > 0 {
        let front = s.drop_last();
        assert forall|i: int| 0 <= i < front.len() implies !p(#[trigger] front[i]) by {
            assert(front[i] == s[i]);
        }
        lemma_filter_none(front, p);
        assert(!p(s[s.len() - 1]));
    }
}

proof fn lemma_records_from(
    found: Seq<Found>,
    base: Seq<u8>,
    skip_hidden: bool,
    hdd: Set<u64>,
    i: int,
) -> (f: Found)
    requires
        0 <= i < entries_of(regular(visible(found, base, skip_hidden)), 0, hdd).len(),
    ensures
        found.contains(f),
        path_of(f.probe) == entries_of(regular(visible(found, base, skip_hidden)), 0, hdd)[i].path,
    decreases found.len(),
{
    reveal(Seq::filter);
    if found.len() == 0 {
        assert(visible(found, base, skip_hidden).len() == 0);
        assert(regular(visible(found, base, skip_hidden)).len() == 0);
        found.last()
    } else {
        let front = found.drop_last();
        let f = found.last();
        let seen = visible(front, base, skip_hidden);
        assert(seen.push(f).drop_last() =~= seen);
        assert(regular(seen).push(f.probe).drop_last() =~= regular(seen));
        let before = entries_of(regular(seen), 0, hdd);
        let after = entries_of(regular(visible(found, base, skip_hidden)), 0, hdd);
        if i < before.len() {
            let g = lemma_records_from(front, base, skip_hidden, hdd, i);
            assert(after[i] == before[i]);
            let m = choose|m: int| 0 <= m < front.len() && front[m] == g;
            assert(found[m] == g);
            g
        } else {
            assert(found[found.len() - 1] == f);
            f
        }
    }
}

proof fn lemma_shown_below(path: Seq<u8>, dir: Seq<u8>, base: Seq<u8>, name: Seq<u8>)
    requires
        path_starts_with(path, dir),
        components(dir) == components(base).push(Component::Normal(name)),
    ensures
        shown(path, base, true) <==> entered(name, true) && shown(path, dir, true),
{
    let c = components(path);
    let n = components(base).len() as int;
    assert(c[n] == components(dir)[n]) by {
        assert(components(dir) =~= c.subrange(0, n + 1));
    }
    assert(c[n] == Component::Normal(name));
    if shown(path, base, true) {
        assert forall|i: int| components(dir).len() <= i < c.len() implies match #[trigger] components(
            path,
        )[i] {
            Component::Normal(x) => entered(x, true),
            _ => true,
        } by {}
    }
    if entered(name, true) && shown(path, dir, true) {
        assert forall|i: int| n <= i < c.len() implies match #[trigger] components(path)[i] {
            Component::Normal(x) => entered(x, true),
            _ => true,
        } by {
            if i == n {
                assert(components(path)[i] == Component::Normal(name));
            }
        }
    }
}

proof fn lemma_dir_is_filtered(
    tree: Tree,
    entries: Seq<Listed>,
    base: Seq<u8>,
    i: int,
    hdd: Set<u64>,
)
    requires
        grows_from(tree, entries, base),
        0 <= i < entries.len(),
    ensures
        walked(tree, entries[i].path@, false, hdd).filter(not_hidden(base)) == if hidden(
            entries[i].path@,
        ) {
            Seq::empty()
        } else {
            walked(tree, entries[i].path@, true, hdd)
        },
{
    let path = entries[i].path@;
    let name = file_name_of(path)->0;
    let dir = (tree.base_of)(path);
    let found = (tree.found_in)(path);
    let files = walked(tree, path, false, hdd);
    assert forall|m: int| 0 <= m < files.len() implies shown((#[trigger] files[m]).path, base, true)
        == (entered(name, true) && shown(files[m].path, dir, true)) by {
        let f = lemma_records_from(found, dir, false, hdd, m);
        lemma_shown_below(files[m].path, dir, base, name);
    }
    if hidden(path) {
        assert(!entered(name, true));
        lemma_filter_none(files, not_hidden(base));
    } else {
        assert(entered(name, true));
        lemma_filter_all(files, not_hidden(base), not_hidden(dir));
        lemma_walk_is_filtered(found, dir, hdd);
    }
}

proof fn lemma_chosen_files_filtered(tree: Tree, entries: Seq<Listed>, base: Seq<u8>, hdd: Set<u64>)
    requires
        grows_from(tree, entries, base),
    ensures
        entries_of(probes_of(tree, chosen(entries, false, true)), 0, hdd) == entries_of(
            probes_of(tree, chosen(entries, false, false)),
            0,
            hdd,
        ).filter(not_hidden(base)),
    decreases entries.len(),
{
    reveal(Seq::filter);
    if entries.len() > 0 {
        let front = entries.drop_last();
        let x = entries[entries.len() - 1];
        lemma_grows_front(tree, entries, base);
        lemma_chosen_files_filtered(tree, front, base, hdd);
        let all = probes_of(tree, chosen(front, false, false));
        let some = probes_of(tree, chosen(front, false, true));
        let probe = (tree.probe_of)(x.path@);
        if x.kind is File {
            assert(probes_of(tree, chosen(entries, false, false)) =~= all.push(probe));
            assert(all.push(probe).drop_last() =~= all);
            assert(some.push(probe).drop_last() =~= some);
            let name = file_name_of(x.path@)->0;
            let c = components(path_of(probe));
            let n = components(base).len() as int;
            assert(c[n] == Component::Normal(name));
            assert(shown(path_of(probe), base, true) <==> entered(name, true)) by {
                if shown(path_of(probe), base, true) {
                    assert(components(path_of(probe))[n] == Component::Normal(name));
                }
            }
            if !hidden(x.path@) {
                assert(probes_of(tree, chosen(entries, false, true)) =~= some.push(probe));
            }
            if let Some(entry) = entry_of(probe, 0, hdd) {
                let before = entries_of(all, 0, hdd);
                assert(before.push(entry).drop_last() =~= before);
                assert(entry.path == path_of(probe));
            }
        }
    }
}

proof fn lemma_grows_front(tree: Tree, entries: Seq<Listed>, base: Seq<u8>)
    requires
        grows_from(tree, entries, base),
        entries.len() > 0,
    ensures
        grows_from(tree, entries.drop_last(), base),
{
    let front = entries.drop_last();
    assert forall|i: int| 0 <= i < front.len() implies {
        let path = (#[trigger] front[i]).path@;
        &&& file_name_of(path) is Some
        &&& components(path_of((tree.probe_of)(path))) == components(base).push(
            Component::Normal(file_name_of(path)->0),
        )
        &&& components((tree.base_of)(path)) == components(base).push(
            Component::Normal(file_name_of(path)->0),
        )
        &&& forall|f: Found| #[trigger]
            (tree.found_in)(path).contains(f) ==> path_starts_with(
                path_of(f.probe),
                (tree.base_of)(path),
            )
    } by {
        assert(front[i] == entries[i]);
    }
}

proof fn lemma_chosen_dirs_filtered(tree: Tree, entries: Seq<Listed>, base: Seq<u8>, hdd: Set<u64>)
    requires
        grows_from(tree, entries, base),
    ensures
        all_walked(tree, chosen(entries, true, true), true, hdd) == all_walked(
            tree,
            chosen(entries, true, false),
            false,
            hdd,
        ).filter(not_hidden(base)),
    decreases entries.len(),
{
    if entries.len() > 0 {
        let front = entries.drop_last();
        let last = entries.len() - 1;
        let path = entries[last].path@;
        lemma_grows_front(tree, entries, base);
        lemma_chosen_dirs_filtered(tree, front, base, hdd);
        if entries[last].kind is Dir {
            let all = chosen(front, true, false);
            let some = chosen(front, true, true);
            assert(all.push(path).drop_last() =~= all);
            assert(some.push(path).drop_last() =~= some);
            lemma_dir_is_filtered(tree, entries, base, last, hdd);
            Seq::filter_distributes_over_add(
                all_walked(tree, all, false, hdd),
                walked(tree, path, false, hdd),
                not_hidden(base),
            );
            assert(all_walked(tree, some, true, hdd) + Seq::<FileRecord>::empty() =~= all_walked(
                tree,
                some,
                true,
                hdd,
            ));
        }
    } else {
        reveal(Seq::filter);
    }
}

/// Skipping hidden things is a filter: the search of a directory with it comes to the files
/// of the search without it, in their order, but for those with a hidden name below the
/// directory. The name of the directory itself does not count.
pub proof fn lemma_skipping_is_a_filter(
    tree: Tree,
    folder: FolderListing,
    base: Seq<u8>,
    hdd: Set<u64>,
)
    requires
        folder.entries matches Some(entries) ==> grows_from(tree, entries@, base),
    ensures
        collected(tree, seq![folder], true, hdd) == collected(
            tree,
            seq![folder],
            false,
            hdd,
        ).filter(not_hidden(base)),
{
    lemma_one_folder(folder, true, true);
    lemma_one_folder(folder, true, false);
    lemma_one_folder(folder, false, true);
    lemma_one_folder(folder, false, false);
    let direct = entries_of(probes_of(tree, chosen_in(folder, false, false)), 0, hdd);
    let below = all_walked(tree, chosen_in(folder, true, false), false, hdd);
    Seq::filter_distributes_over_add(direct, below, not_hidden(base));
    if folder.found && folder.entries is Some {
        let entries = folder.entries->0@;
        lemma_chosen_files_filtered(tree, entries, base, hdd);
        lemma_chosen_dirs_filtered(tree, entries, base, hdd);
    } else {
        reveal(Seq::filter);
        assert(probes_of(tree, chosen_in(folder, false, false)).len() == 0);
        assert(probes_of(tree, chosen_in(folder, false, true)).len() == 0);
    }
}

proof fn lemma_one_folder(folder: FolderListing, dirs: bool, skip_hidden: bool)
    ensures
        chosen_in_all(seq![folder], dirs, skip_hidden) == chosen_in(folder, dirs, skip_hidden),
{
    assert(seq![folder].drop_last() =~= Seq::empty());
    assert(chosen_in_all(seq![folder].drop_last(), dirs, skip_hidden) =~= Seq::empty());
    assert(chosen_in_all(seq![folder], dirs, skip_hidden) =~= chosen_in(folder, dirs, skip_hidden));
}

proof fn lemma_entries_add(a: Seq<Probe>, b: Seq<Probe>, hdd: Set<u64>)
    ensures
        entries_of(a + b, 0, hdd) == entries_of(a, 0, hdd) + entries_of(b, 0, hdd),
    decreases b.len(),
{
    if b.len() == 0 {
        assert(a + b =~= a);
        assert(entries_of(a, 0, hdd) + entries_of(b, 0, hdd) =~= entries_of(a, 0, hdd));
    } else {
        assert((a + b).drop_last() =~= a + b.drop_last());
        lemma_entries_add(a, b.drop_last(), hdd);
        assert(entries_of(a + b, 0, hdd) =~= entries_of(a, 0, hdd) + entries_of(b, 0, hdd));
    }
}

proof fn lemma_walked_add(
    tree: Tree,
    a: Seq<Seq<u8>>,
    b: Seq<Seq<u8>>,
    skip_hidden: bool,
    hdd: Set<u64>,
)
    ensures
        all_walked(tree, a + b, skip_hidden, hdd) == all_walked(tree, a, skip_hidden, hdd)
            + all_walked(tree, b, skip_hidden, hdd),
    decreases b.len(),
{
    if b.len() == 0 {
        assert(a + b =~= a);
        assert(all_walked(tree, a, skip_hidden, hdd) + all_walked(tree, b, skip_hidden, hdd)
            =~= all_walked(tree, a, skip_hidden, hdd));
    } else {
        assert((a + b).drop_last() =~= a + b.drop_last());
        lemma_walked_add(tree, a, b.drop_last(), skip_hidden, hdd);
        assert(all_walked(tree, a + b, skip_hidden, hdd) =~= all_walked(tree, a, skip_hidden, hdd)
            + all_walked(tree, b, skip_hidden, hdd));
    }
}

/// The files of the directories, each without those with a hidden name below it. `bases`
/// are the absolute forms of the directories.
pub open spec fn shown_in_all(
    tree: Tree,
    folders: Seq<FolderListing>,
    bases: Seq<Seq<u8>>,
    hdd: Set<u64>,
) -> Multiset<FileRecord>
    decreases folders.len(),
{
    if folders.len() == 0 {
        Multiset::empty()
    } else {
        shown_in_all(tree, folders.drop_last(), bases, hdd).add(
            collected(tree, seq![folders.last()], false, hdd).filter(
                not_hidden(bases[folders.len() - 1]),
            ).to_multiset(),
        )
    }
}

/// Skipping hidden things is a filter for several directories too, up to the order of the
/// files: the search with it comes to the files of each directory without those with a
/// hidden name below it.
pub proof fn lemma_skipping_is_a_filter_of_all(
    tree: Tree,
    folders: Seq<FolderListing>,
    bases: Seq<Seq<u8>>,
    hdd: Set<u64>,
)
    requires
        bases.len() >= folders.len(),
        forall|i: int|
            0 <= i < folders.len() ==> ((#[trigger] folders[i]).entries matches Some(entries)
                ==> grows_from(tree, entries@, bases[i])),
    ensures
        collected(tree, folders, true, hdd).to_multiset() == shown_in_all(
            tree,
            folders,
            bases,
            hdd,
        ),
    decreases folders.len(),
{
    if folders.len() == 0 {
        assert(probes_of(tree, chosen_in_all(folders, false, true)).len() == 0);
        assert(collected(tree, folders, true, hdd) =~= Seq::empty());
        to_multiset_len(collected(tree, folders, true, hdd));
        assert(collected(tree, folders, true, hdd).to_multiset() =~= Multiset::empty());
    } else {
        let front = folders.drop_last();
        let last = folders[folders.len() - 1];
        assert forall|i: int| 0 <= i < front.len() implies ((
        #[trigger] front[i]).entries matches Some(entries) ==> grows_from(
            tree,
            entries@,
            bases[i],
        )) by {
            assert(front[i] == folders[i]);
        }
        lemma_skipping_is_a_filter_of_all(tree, front, bases, hdd);
        lemma_skipping_is_a_filter(tree, last, bases[folders.len() - 1], hdd);
        lemma_one_folder(last, true, true);
        lemma_one_folder(last, false, true);
        let f0 = chosen_in_all(front, false, true);
        let f1 = chosen_in(last, false, true);
        let d0 = chosen_in_all(front, true, true);
        let d1 = chosen_in(last, true, true);
        assert(probes_of(tree, f0 + f1) =~= probes_of(tree, f0) + probes_of(tree, f1));
        lemma_entries_add(probes_of(tree, f0), probes_of(tree, f1), hdd);
        lemma_walked_add(tree, d0, d1, true, hdd);
        let a = entries_of(probes_of(tree, f0), 0, hdd);
        let b = entries_of(probes_of(tree, f1), 0, hdd);
        let c = all_walked(tree, d0, true, hdd);
        let d = all_walked(tree, d1, true, hdd);
        assert(collected(tree, folders, true, hdd) == (a + b) + (c + d));
        lemma_multiset_commutative(a + b, c + d);
        lemma_multiset_commutative(a, b);
        lemma_multiset_commutative(c, d);
        lemma_multiset_commutative(a, c);
        lemma_multiset_commutative(b, d);
        assert(((a + b) + (c + d)).to_multiset() =~= (a + c).to_multiset().add(
            (b + d).to_multiset(),
        ));
    }
}

} // verus!
