//! Telling files apart by inode and by size, without reading them.

use crate::entry::{records, FileEntry, FileRecord};
use crate::order::{
    grouped, increasing, keyed, keyed_groups, latest, lemma_grouped, lemma_shared, shared,
    shared_by_key, values_at, SortKey, Table,
};
use crate::path::{components, path_views, Component, FilePath, PathKey};
use std::collections::HashMap;
use vstd::prelude::*;

verus! {

broadcast use vstd::std_specs::hash::group_hash_axioms;

impl SortKey for u64 {
    type Value = u64;

    open spec fn value(&self) -> u64 {
        *self
    }

    open spec fn le(a: u64, b: u64) -> bool {
        a <= b
    }

    proof fn le_total(a: u64, b: u64) {
    }

    proof fn le_transitive(a: u64, b: u64, c: u64) {
    }

    proof fn le_antisymmetric(a: u64, b: u64) {
    }

    fn at_most(&self, other: &Self) -> (r: bool) {
        *self <= *other
    }
}

/// Whether two entries are hard links to one file.
pub open spec fn same_inode(a: FileRecord, b: FileRecord) -> bool {
    a.dev == b.dev && a.ino == b.ino
}

/// Whether a hard link to the file of `e` is among the entries.
pub open spec fn linked_in(s: Seq<FileRecord>, e: FileRecord) -> bool {
    exists|i: int| 0 <= i < s.len() && same_inode(#[trigger] s[i], e)
}

/// The entries that are the first link to their file.
pub open spec fn first_links(s: Seq<FileRecord>) -> Seq<FileRecord>
    decreases s.len(),
{
    if s.len() == 0 {
        Seq::empty()
    } else if linked_in(s.drop_last(), s.last()) {
        first_links(s.drop_last())
    } else {
        first_links(s.drop_last()).push(s.last())
    }
}

/// The entries that are links to the file of `e`, in their order.
pub open spec fn links_of(s: Seq<FileRecord>, e: FileRecord) -> Seq<FileRecord> {
    s.filter(|x: FileRecord| same_inode(x, e))
}

/// The paths of entries.
pub open spec fn paths_of(s: Seq<FileRecord>) -> Seq<Seq<u8>> {
    Seq::new(s.len(), |i: int| s[i].path)
}

/// The entries of a size, in their order.
pub open spec fn of_size(s: Seq<FileRecord>, size: u64) -> Seq<FileRecord> {
    s.filter(|x: FileRecord| x.size == size)
}

/// The paths of the links to the file that the last of `firsts` with the path `k`
/// and with more than one link stands for.
pub open spec fn expansion_in(
    s: Seq<FileRecord>,
    firsts: Seq<FileRecord>,
    k: Seq<Component>,
) -> Option<Seq<Seq<u8>>>
    decreases firsts.len(),
{
    if firsts.len() == 0 {
        None
    } else if components(firsts.last().path) == k && links_of(s, firsts.last()).len() > 1 {
        Some(paths_of(links_of(s, firsts.last())))
    } else {
        expansion_in(s, firsts.drop_last(), k)
    }
}

/// The paths that a path stands for among the entries, where they are more than
/// one: those of the hard links to its file.
pub open spec fn expansion(s: Seq<FileRecord>, k: Seq<Component>) -> Option<Seq<Seq<u8>>> {
    expansion_in(s, first_links(s), k)
}

/// What an optional list of paths stands for.
pub open spec fn list_view(list: Option<Vec<FilePath>>) -> Option<Seq<Seq<u8>>> {
    match list {
        Some(paths) => Some(path_views(paths@)),
        None => None,
    }
}

/// From the path of the first link to a file that has several, to the paths of all.
pub type LinkTable = Table<PathKey, Vec<FilePath>>;

/// Whether every list of links has more than one.
pub open spec fn lists_several(links: LinkTable) -> bool {
    forall|k: Seq<Component>| #[trigger] links.find(k) matches Some(paths) ==> paths@.len() > 1
}

/// Files of one size.
pub struct SizeGroup {
    pub size: u64,
    pub entries: Vec<FileEntry>,
}

/// Whether the groups are those of `files` by size that hold more than one file, the
/// sizes in order.
pub open spec fn are_size_groups(groups: Seq<SizeGroup>, files: Seq<FileRecord>) -> bool {
    &&& forall|i: int, j: int|
        #![trigger groups[i], groups[j]]
        0 <= i < j < groups.len() ==> groups[i].size < groups[j].size
    &&& forall|i: int|
        0 <= i < groups.len() ==> records((#[trigger] groups[i]).entries@) == of_size(
            files,
            groups[i].size,
        ) && groups[i].entries@.len() > 1
    &&& forall|size: u64| #[trigger]
        of_size(files, size).len() > 1 ==> exists|i: int|
            0 <= i < groups.len() && (#[trigger] groups[i]).size == size
}

/// The files that may have duplicates, and what was set aside.
pub struct FilteredGroups {
    /// The first links, grouped by size.
    pub size_groups: Vec<SizeGroup>,
    /// How many entries are further links to a file.
    pub inode_dupes_saved: u64,
    /// The links to the files that have several.
    pub inode_expand: LinkTable,
}

/// Device and inode number as one number.
spec fn inode_code(e: FileRecord) -> u128 {
    (e.dev * 0x1_0000_0000_0000_0000 + e.ino) as u128
}

proof fn lemma_inode_code(a: FileRecord, b: FileRecord)
    ensures
        inode_code(a) == inode_code(b) <==> same_inode(a, b),
{
}

fn inode_number(dev: u64, ino: u64) -> (r: u128)
    ensures
        r == dev * 0x1_0000_0000_0000_0000 + ino,
{
    (dev as u128) * 0x1_0000_0000_0000_0000u128 + (ino as u128)
}

proof fn lemma_links_push(s: Seq<FileRecord>, x: FileRecord, e: FileRecord)
    ensures
        links_of(s.push(x), e) == if same_inode(x, e) {
            links_of(s, e).push(x)
        } else {
            links_of(s, e)
        },
{
    reveal(Seq::filter);
    assert(s.push(x).drop_last() =~= s);
}

proof fn lemma_no_links(s: Seq<FileRecord>, e: FileRecord)
    requires
        !linked_in(s, e),
    ensures
        links_of(s, e).len() == 0,
    decreases s.len(),
{
    reveal(Seq::filter);
    if s.len() > 0 {
        assert(!same_inode(s[s.len() - 1], e));
        assert forall|i: int| 0 <= i < s.drop_last().len() implies !same_inode(
            #[trigger] s.drop_last()[i],
            e,
        ) by {
            assert(!same_inode(s[i], e));
        }
        lemma_no_links(s.drop_last(), e);
    }
}

/// The entries gathered by inode, in the order of their first links.
fn group_by_inode(entries: Vec<FileEntry>) -> (r: Vec<Vec<FileEntry>>)
    ensures
        r@.len() == first_links(records(entries@)).len(),
        forall|g: int|
            0 <= g < r@.len() ==> records((#[trigger] r@[g])@) == links_of(
                records(entries@),
                first_links(records(entries@))[g],
            ),
{
    let ghost s = records(entries@);
    let mut groups: Vec<Vec<FileEntry>> = Vec::new();
    let mut places: HashMap<u128, usize> = HashMap::new();
    assert(s.take(0) =~= Seq::empty());
    for entry in it: entries
        invariant
            it.seq() == entries@,
            s == records(entries@),
            groups@.len() == first_links(s.take(it.index() as int)).len(),
            forall|g: int|
                0 <= g < groups@.len() ==> records((#[trigger] groups@[g])@) == links_of(
                    s.take(it.index() as int),
                    first_links(s.take(it.index() as int))[g],
                ),
            forall|j: int|
                0 <= j < it.index() ==> places@.contains_key(inode_code(#[trigger] s[j])),
            forall|k: u128| #[trigger]
                places@.contains_key(k) ==> places@[k] < groups@.len() && inode_code(
                    first_links(s.take(it.index() as int))[places@[k] as int],
                ) == k,
            forall|g: int|
                0 <= g < groups@.len() ==> {
                    let k = inode_code(#[trigger] first_links(s.take(it.index() as int))[g]);
                    places@.contains_key(k) && places@[k] == g
                },
            forall|g: int|
                0 <= g < groups@.len() ==> linked_in(
                    s.take(it.index() as int),
                    #[trigger] first_links(s.take(it.index() as int))[g],
                ),
    {
        let ghost n = it.index() as int;
        let ghost front = s.take(n);
        let ghost next = s.take(n + 1);
        let ghost e = entry@;
        let ghost firsts = first_links(front);
        let ghost before = groups@;
        let ghost places0 = places@;
        proof {
            assert(s[n] == e);
            assert(next =~= front.push(e));
            assert(next.drop_last() =~= front);
            assert(next.last() == e);
        }
        let code: u128 = inode_number(entry.dev, entry.ino);
        assert(code == inode_code(e));
        match places.get(&code) {
            Some(place) => {
                let place: usize = *place;
                proof {
                    lemma_inode_code(firsts[place as int], e);
                    let j = choose|j: int|
                        0 <= j < front.len() && same_inode(#[trigger] front[j], firsts[place as int]);
                    assert(same_inode(front[j], e));
                    assert(linked_in(front, e));
                    assert(first_links(next) == firsts);
                }
                groups[place].push(entry);
                proof {
                    assert forall|g: int| 0 <= g < groups@.len() implies records(
                        (#[trigger] groups@[g])@,
                    ) == links_of(next, firsts[g]) by {
                        lemma_links_push(front, e, firsts[g]);
                        lemma_inode_code(e, firsts[g]);
                        if g == place {
                            assert(records(groups@[g]@) =~= records(before[g]@).push(e));
                        } else {
                            assert(groups@[g] == before[g]);
                        }
                    }
                }
            },
            None => {
                proof {
                    if linked_in(front, e) {
                        let j = choose|j: int|
                            0 <= j < front.len() && same_inode(#[trigger] front[j], e);
                        assert(front[j] == s[j]);
                        lemma_inode_code(s[j], e);
                        assert(false);
                    }
                    assert(first_links(next) == firsts.push(e));
                }
                let place: usize = groups.len();
                let mut group: Vec<FileEntry> = Vec::new();
                group.push(entry);
                assert(records(group@) =~= seq![e]);
                groups.push(group);
                places.insert(code, place);
                proof {
                    assert forall|g: int| 0 <= g < groups@.len() implies records(
                        (#[trigger] groups@[g])@,
                    ) == links_of(next, firsts.push(e)[g]) by {
                        lemma_links_push(front, e, firsts.push(e)[g]);
                        lemma_inode_code(e, firsts.push(e)[g]);
                        if g == place {
                            lemma_no_links(front, e);
                            assert(links_of(front, e) =~= Seq::empty());
                            assert(records(groups@[g]@) =~= Seq::empty().push(e));
                        } else {
                            assert(groups@[g] == before[g]);
                            assert(places0.contains_key(inode_code(firsts[g])));
                        }
                    }
                }
            },
        }
        proof {
            let now = first_links(next);
            assert forall|g: int| 0 <= g < groups@.len() implies linked_in(
                next,
                #[trigger] now[g],
            ) by {
                if g < firsts.len() {
                    let j = choose|j: int|
                        0 <= j < front.len() && same_inode(#[trigger] front[j], firsts[g]);
                    assert(next[j] == front[j]);
                } else {
                    assert(same_inode(next[n], now[g]));
                }
            }
        }
    }
    assert(s.take(s.len() as int) =~= s);
    groups
}

proof fn lemma_expansion_several(
    s: Seq<FileRecord>,
    firsts: Seq<FileRecord>,
    k: Seq<Component>,
)
    ensures
        expansion_in(s, firsts, k) matches Some(paths) ==> paths.len() > 1,
    decreases firsts.len(),
{
    if firsts.len() > 0 {
        lemma_expansion_several(s, firsts.drop_last(), k);
    }
}

fn paths_of_entries(entries: &Vec<FileEntry>) -> (r: Vec<FilePath>)
    ensures
        path_views(r@) == paths_of(records(entries@)),
{
    let mut r: Vec<FilePath> = Vec::new();
    let mut i: usize = 0;
    while i < entries.len()
        invariant
            i <= entries@.len(),
            r@.len() == i,
            forall|j: int| 0 <= j < i ==> (#[trigger] r@[j])@ == entries@[j].path@,
        decreases entries@.len() - i,
    {
        r.push(entries[i].path.clone());
        i = i + 1;
    }
    assert(path_views(r@) =~= paths_of(records(entries@)));
    r
}

proof fn lemma_size_values(pairs: Seq<(u64, FileEntry)>, size: u64)
    requires
        forall|i: int| 0 <= i < pairs.len() ==> (#[trigger] pairs[i]).0 == pairs[i].1.size,
    ensures
        records(values_at(keyed(pairs), size)) == of_size(
            Seq::new(pairs.len(), |i: int| pairs[i].1@),
            size,
        ),
    decreases pairs.len(),
{
    reveal(Seq::filter);
    let files = Seq::new(pairs.len(), |i: int| pairs[i].1@);
    if pairs.len() > 0 {
        let front = pairs.drop_last();
        lemma_size_values(front, size);
        assert(keyed(pairs).drop_last() =~= keyed(front));
        assert(files.drop_last() =~= Seq::new(front.len(), |i: int| front[i].1@));
        assert(files.last() == pairs.last().1@);
        assert(records(values_at(keyed(pairs), size)) =~= of_size(files, size));
    } else {
        assert(records(values_at(keyed(pairs), size)) =~= of_size(files, size));
    }
}

/// Groups files by size and keeps the groups of more than one file.
pub fn group_by_size(files: Vec<FileEntry>) -> (r: Vec<SizeGroup>)
    ensures
        are_size_groups(r@, records(files@)),
{
    let ghost s = records(files@);
    let mut pairs: Vec<(u64, FileEntry)> = Vec::new();
    for file in it: files
        invariant
            it.seq() == files@,
            pairs@.len() == it.index(),
            forall|i: int|
                0 <= i < pairs@.len() ==> (#[trigger] pairs@[i]).1 == files@[i] && pairs@[i].0
                    == files@[i].size,
    {
        pairs.push((file.size, file));
    }
    let ghost given = keyed(pairs@);
    proof {
        assert(Seq::new(pairs@.len(), |i: int| pairs@[i].1@) =~= s);
        assert forall|size: u64| records(#[trigger] values_at(given, size)) == of_size(
            s,
            size,
        ) by {
            lemma_size_values(pairs@, size);
        }
    }
    let groups = shared_by_key(pairs);
    let ghost kept = keyed_groups(groups@);
    let mut r: Vec<SizeGroup> = Vec::new();
    for group in it: groups
        invariant
            it.seq() == groups@,
            r@.len() == it.index(),
            forall|i: int|
                0 <= i < r@.len() ==> (#[trigger] r@[i]).size == groups@[i].0 && r@[i].entries
                    == groups@[i].1,
    {
        r.push(SizeGroup { size: group.0, entries: group.1 });
    }
    proof {
        let all = grouped::<u64, FileEntry>(given);
        lemma_grouped::<u64, FileEntry>(given);
        lemma_shared(all);
        lemma_shared_increasing::<u64, FileEntry>(all);
        assert forall|i: int| 0 <= i < r@.len() implies records((#[trigger] r@[i]).entries@)
            == of_size(s, r@[i].size) && r@[i].entries@.len() > 1 by {
            assert(kept.contains(kept[i]));
            let j = choose|j: int| 0 <= j < all.len() && all[j] == kept[i];
            assert(all[j].1 == values_at(given, all[j].0));
        }
        assert forall|size: u64| #[trigger] of_size(s, size).len() > 1 implies exists|i: int|
            0 <= i < r@.len() && (#[trigger] r@[i]).size == size by {
            assert(records(values_at(given, size)) == of_size(s, size));
            let j = choose|j: int| 0 <= j < all.len() && (#[trigger] all[j]).0 == size;
            assert(all[j].1 == values_at(given, size));
            assert(kept.contains(all[j]));
            let i = choose|i: int| 0 <= i < kept.len() && kept[i] == all[j];
            assert(r@[i].size == size);
        }
        assert forall|i: int, j: int|
            #![trigger r@[i], r@[j]]
            0 <= i < j < r@.len() implies r@[i].size < r@[j].size by {
            assert(kept[i].0 != kept[j].0);
        }
    }
    r
}

/// Keeping some of the groups keeps the order of their keys.
pub proof fn lemma_shared_increasing<K: SortKey, V>(groups: Seq<(K::Value, Seq<V>)>)
    requires
        increasing::<K, Seq<V>>(groups),
    ensures
        increasing::<K, Seq<V>>(shared(groups)),
    decreases groups.len(),
{
    reveal(Seq::filter);
    if groups.len() > 0 {
        let front = groups.drop_last();
        lemma_shared_increasing::<K, V>(front);
        lemma_shared(front);
        let r = shared(groups);
        let f = shared(front);
        assert forall|i: int, j: int|
            #![trigger r[i], r[j]]
            0 <= i < j < r.len() implies K::le(r[i].0, r[j].0) && r[i].0 != r[j].0 by {
            assert(r[i] == f[i]);
            if j < f.len() {
                assert(r[j] == f[j]);
            } else {
                assert(f.contains(f[i]));
                let m = choose|m: int| 0 <= m < front.len() && front[m] == f[i];
                assert(groups[m] == f[i]);
                assert(groups[groups.len() - 1] == r[j]);
            }
        }
    }
}

/// Gathers hard links, then groups the files by size and drops those that are
/// alone with theirs.
pub fn filter_by_inode_and_size(entries: Vec<FileEntry>) -> (r: FilteredGroups)
    ensures
        are_size_groups(r.size_groups@, first_links(records(entries@))),
        r.inode_dupes_saved == entries@.len() - first_links(records(entries@)).len(),
        forall|k: Seq<Component>|
            list_view(#[trigger] r.inode_expand.find(k)) == expansion(records(entries@), k),
        lists_several(r.inode_expand),
{
    let ghost s = records(entries@);
    let ghost firsts = first_links(s);
    let total: usize = entries.len();
    let groups = group_by_inode(entries);
    proof {
        lemma_first_links(s);
    }
    let inode_dupes_saved: u64 = (total - groups.len()) as u64;
    let mut unique: Vec<FileEntry> = Vec::new();
    let mut expansions: Vec<(PathKey, Vec<FilePath>)> = Vec::new();
    let mut i: usize = 0;
    assert(firsts.take(0) =~= Seq::empty());
    while i < groups.len()
        invariant
            i <= groups@.len(),
            firsts == first_links(s),
            groups@.len() == firsts.len(),
            forall|g: int|
                0 <= g < groups@.len() ==> records((#[trigger] groups@[g])@) == links_of(
                    s,
                    firsts[g],
                ),
            forall|g: int|
                0 <= g < firsts.len() ==> links_of(s, #[trigger] firsts[g]).len() > 0 && links_of(
                    s,
                    firsts[g],
                )[0] == firsts[g],
            records(unique@) =~= firsts.take(i as int),
            forall|k: Seq<Component>|
                list_view(#[trigger] latest(keyed(expansions@), k)) == expansion_in(
                    s,
                    firsts.take(i as int),
                    k,
                ),
        decreases groups@.len() - i,
    {
        let group = &groups[i];
        let ghost e = firsts[i as int];
        let ghost links = links_of(s, e);
        proof {
            assert(records(group@) == links);
            assert(records(group@)[0] == e);
            assert(firsts.take(i + 1).drop_last() =~= firsts.take(i as int));
            assert(firsts.take(i + 1).last() == e);
            assert(firsts.take(i + 1) =~= firsts.take(i as int).push(e));
        }
        let rep = group[0].clone();
        let ghost before = keyed(expansions@);
        if group.len() > 1 {
            let key = rep.path.key();
            let paths = paths_of_entries(group);
            expansions.push((key, paths));
            proof {
                let added = keyed(expansions@);
                assert(added.drop_last() =~= before);
                assert(added.last() == (components(e.path), paths));
                assert forall|k: Seq<Component>|
                    list_view(#[trigger] latest(added, k)) == expansion_in(
                        s,
                        firsts.take(i + 1),
                        k,
                    ) by {
                    assert(list_view(latest(before, k)) == expansion_in(
                        s,
                        firsts.take(i as int),
                        k,
                    ));
                }
            }
        } else {
            proof {
                assert forall|k: Seq<Component>|
                    list_view(#[trigger] latest(keyed(expansions@), k)) == expansion_in(
                        s,
                        firsts.take(i + 1),
                        k,
                    ) by {
                    assert(list_view(latest(before, k)) == expansion_in(
                        s,
                        firsts.take(i as int),
                        k,
                    ));
                }
            }
        }
        let ghost reps = records(unique@);
        unique.push(rep);
        assert(records(unique@) =~= reps.push(e));
        i = i + 1;
    }
    assert(firsts.take(i as int) =~= firsts);
    let inode_expand = Table::from_pairs(expansions);
    proof {
        assert forall|k: Seq<Component>|
            list_view(#[trigger] inode_expand.find(k)) == expansion(s, k) by {
            assert(list_view(latest(keyed(expansions@), k)) == expansion_in(s, firsts, k));
        }
        assert forall|k: Seq<Component>| #[trigger]
            inode_expand.find(k) matches Some(paths) ==> paths@.len() > 1 by {
            assert(list_view(inode_expand.find(k)) == expansion(s, k));
            lemma_expansion_several(s, firsts, k);
            if let Some(paths) = inode_expand.find(k) {
                assert(path_views(paths@).len() == paths@.len());
            }
        }
    }
    let size_groups = group_by_size(unique);
    FilteredGroups { size_groups, inode_dupes_saved, inode_expand }
}

/// Of each file exactly the first link stays: no two of the first links are links
/// to one file, each is the first of its links, and every entry is a link to the
/// file of one of them.
pub proof fn lemma_first_links(s: Seq<FileRecord>)
    ensures
        first_links(s).len() <= s.len(),
        forall|i: int, j: int|
            #![trigger first_links(s)[i], first_links(s)[j]]
            0 <= i < j < first_links(s).len() ==> !same_inode(first_links(s)[i], first_links(s)[j]),
        forall|i: int|
            0 <= i < first_links(s).len() ==> links_of(s, #[trigger] first_links(s)[i]).len() > 0
                && links_of(s, first_links(s)[i])[0] == first_links(s)[i],
        forall|i: int|
            #![trigger s[i]]
            0 <= i < s.len() ==> linked_in(first_links(s), s[i]),
        forall|i: int|
            0 <= i < first_links(s).len() ==> s.contains(#[trigger] first_links(s)[i]),
    decreases s.len(),
{
    if s.len() > 0 {
        let front = s.drop_last();
        let x = s.last();
        let f = first_links(front);
        let r = first_links(s);
        lemma_first_links(front);
        assert(s =~= front.push(x));
        assert forall|i: int| 0 <= i < r.len() implies s.contains(#[trigger] r[i]) by {
            if i < f.len() {
                assert(r[i] == f[i]);
                let m = choose|m: int| 0 <= m < front.len() && front[m] == f[i];
                assert(s[m] == r[i]);
            } else {
                assert(s[s.len() - 1] == r[i]);
            }
        }
        assert forall|i: int| 0 <= i < r.len() implies links_of(s, #[trigger] r[i]).len() > 0
            && links_of(s, r[i])[0] == r[i] by {
            lemma_links_push(front, x, r[i]);
            if i < f.len() {
                assert(r[i] == f[i]);
                assert(links_of(front, f[i])[0] == f[i]);
            } else {
                lemma_no_links(front, x);
            }
        }
        assert forall|i: int|
            #![trigger s[i]]
            0 <= i < s.len() implies linked_in(r, s[i]) by {
            if i < front.len() {
                assert(front[i] == s[i]);
                let m = choose|m: int| 0 <= m < f.len() && same_inode(#[trigger] f[m], front[i]);
                assert(same_inode(r[m], s[i]));
            } else if linked_in(front, x) {
                let j = choose|j: int| 0 <= j < front.len() && same_inode(#[trigger] front[j], x);
                let m = choose|m: int| 0 <= m < f.len() && same_inode(#[trigger] f[m], front[j]);
                assert(same_inode(r[m], x));
            } else {
                assert(same_inode(r[r.len() - 1], x));
            }
        }
        assert forall|i: int, j: int|
            #![trigger r[i], r[j]]
            0 <= i < j < r.len() implies !same_inode(r[i], r[j]) by {
            assert(r[i] == f[i]);
            if j < f.len() {
                assert(r[j] == f[j]);
            } else if same_inode(r[i], x) {
                let m = choose|m: int| 0 <= m < front.len() && front[m] == f[i];
                assert(same_inode(front[m], x));
            }
        }
    }
}

proof fn lemma_expansion_in(s: Seq<FileRecord>, firsts: Seq<FileRecord>, i: int)
    requires
        0 <= i < firsts.len(),
        links_of(s, firsts[i]).len() > 1,
        forall|j: int|
            i < j < firsts.len() ==> components((#[trigger] firsts[j]).path) != components(
                firsts[i].path,
            ),
    ensures
        expansion_in(s, firsts, components(firsts[i].path)) == Some(
            paths_of(links_of(s, firsts[i])),
        ),
    decreases firsts.len(),
{
    if i < firsts.len() - 1 {
        let front = firsts.drop_last();
        assert(front[i] == firsts[i]);
        assert forall|j: int| i < j < front.len() implies components((#[trigger] front[j]).path)
            != components(front[i].path) by {
            assert(front[j] == firsts[j]);
        }
        assert(components(firsts[firsts.len() - 1].path) != components(firsts[i].path));
        lemma_expansion_in(s, front, i);
    }
}

/// Hard links are not lost: where no two first links have one path, the path of the
/// first link to a file that has several stands for the paths of them all.
pub proof fn lemma_links_not_lost(s: Seq<FileRecord>, i: int)
    requires
        0 <= i < first_links(s).len(),
        links_of(s, first_links(s)[i]).len() > 1,
        forall|a: int, b: int|
            #![trigger first_links(s)[a], first_links(s)[b]]
            0 <= a < b < first_links(s).len() ==> components(first_links(s)[a].path) != components(
                first_links(s)[b].path,
            ),
    ensures
        expansion(s, components(first_links(s)[i].path)) == Some(
            paths_of(links_of(s, first_links(s)[i])),
        ),
{
    let firsts = first_links(s);
    assert forall|j: int| i < j < firsts.len() implies components((#[trigger] firsts[j]).path)
        != components(firsts[i].path) by {
        assert(components(firsts[i].path) != components(firsts[j].path));
    }
    lemma_expansion_in(s, firsts, i);
}

/// A file stays under its first link: an entry is among the first links where no earlier
/// one has its device and inode number.
pub proof fn lemma_first_link_stays(s: Seq<FileRecord>, i: int)
    requires
        0 <= i < s.len(),
        forall|j: int|
            0 <= j < i ==> (#[trigger] s[j]).dev != s[i].dev || s[j].ino != s[i].ino,
    ensures
        first_links(s).contains(s[i]),
    decreases s.len(),
{
    let front = s.drop_last();
    let f = first_links(front);
    let r = first_links(s);
    if i < front.len() {
        assert(front[i] == s[i]);
        assert forall|j: int| 0 <= j < i implies (#[trigger] front[j]).dev != front[i].dev
            || front[j].ino != front[i].ino by {
            assert(front[j] == s[j]);
        }
        lemma_first_link_stays(front, i);
        let m = choose|m: int| 0 <= m < f.len() && f[m] == s[i];
        assert(r[m] == s[i]);
    } else {
        if linked_in(front, s[i]) {
            let j = choose|j: int| 0 <= j < front.len() && same_inode(#[trigger] front[j], s[i]);
            assert(s[j].dev == s[i].dev && s[j].ino == s[i].ino);
        }
        assert(r[r.len() - 1] == s[i]);
    }
}

/// Nothing else stays, every file once, and in the order of the entries: of two first
/// links, the earlier one is an earlier entry, and no entry before either has its device
/// and inode number.
pub proof fn lemma_first_links_are_first(s: Seq<FileRecord>, p: int, q: int) -> (r: (int, int))
    requires
        0 <= p <= q < first_links(s).len(),
    ensures
        0 <= r.0 <= r.1 < s.len(),
        p < q ==> r.0 < r.1,
        first_links(s)[p] == s[r.0],
        first_links(s)[q] == s[r.1],
        forall|j: int|
            0 <= j < r.0 ==> (#[trigger] s[j]).dev != s[r.0].dev || s[j].ino != s[r.0].ino,
        forall|j: int|
            0 <= j < r.1 ==> (#[trigger] s[j]).dev != s[r.1].dev || s[j].ino != s[r.1].ino,
    decreases s.len(),
{
    let front = s.drop_last();
    let f = first_links(front);
    let last = s.len() - 1;
    if q >= f.len() {
        assert forall|j: int| 0 <= j < last implies (#[trigger] s[j]).dev != s[last].dev
            || s[j].ino != s[last].ino by {
            assert(front[j] == s[j]);
            assert(!same_inode(front[j], s[last]));
        }
    }
    if p >= f.len() {
        (last, last)
    } else {
        let end = if q < f.len() {
            q
        } else {
            p
        };
        let t = lemma_first_links_are_first(front, p, end);
        assert forall|j: int| 0 <= j < t.0 implies (#[trigger] s[j]).dev != s[t.0].dev || s[j].ino
            != s[t.0].ino by {
            assert(front[j] == s[j]);
        }
        assert forall|j: int| 0 <= j < t.1 implies (#[trigger] s[j]).dev != s[t.1].dev || s[j].ino
            != s[t.1].ino by {
            assert(front[j] == s[j]);
        }
        if q < f.len() {
            t
        } else {
            (t.0, last)
        }
    }
}

/// A group by size holds the files of its size, all of them, in their order; the sizes
/// increase, and every size that more than one file has is among them.
pub proof fn lemma_size_groups_hold(
    groups: Seq<SizeGroup>,
    files: Seq<FileRecord>,
    g: int,
    i: int,
    j: int,
)
    requires
        are_size_groups(groups, files),
        0 <= g < groups.len(),
    ensures
        groups[g].entries@.len() > 1,
        records(groups[g].entries@) == files.filter(|x: FileRecord| x.size == groups[g].size),
        forall|h: int| 0 <= h < g ==> (#[trigger] groups[h]).size < groups[g].size,
        0 <= i < j < files.len() && files[i].size == files[j].size ==> exists|h: int|
            0 <= h < groups.len() && (#[trigger] groups[h]).size == files[i].size,
{
    assert(records(groups[g].entries@) == of_size(files, groups[g].size));
    if 0 <= i < j < files.len() && files[i].size == files[j].size {
        lemma_two_of_size(files, i, j);
    }
}

/// Two files of one size are in a group by size.
pub proof fn lemma_same_size_meets(
    groups: Seq<SizeGroup>,
    files: Seq<FileRecord>,
    i: int,
    j: int,
) -> (g: int)
    requires
        are_size_groups(groups, files),
        0 <= i < j < files.len(),
        files[i].size == files[j].size,
    ensures
        0 <= g < groups.len(),
        groups[g].size == files[i].size,
        records(groups[g].entries@).contains(files[i]),
        records(groups[g].entries@).contains(files[j]),
{
    let size = files[i].size;
    let p = |x: FileRecord| x.size == size;
    lemma_two_of_size(files, i, j);
    let g = choose|g: int| 0 <= g < groups.len() && (#[trigger] groups[g]).size == size;
    assert(records(groups[g].entries@) == files.filter(p));
    files.lemma_filter_contains(p, i);
    files.lemma_filter_contains(p, j);
    g
}

proof fn lemma_two_of_size(files: Seq<FileRecord>, i: int, j: int)
    requires
        0 <= i < j < files.len(),
        files[i].size == files[j].size,
    ensures
        of_size(files, files[i].size).len() > 1,
{
    let size = files[i].size;
    let p = |x: FileRecord| x.size == size;
    let a = files.take(j);
    let b = files.skip(j);
    assert(files =~= a + b);
    Seq::filter_distributes_over_add(a, b, p);
    assert(a[i] == files[i] && b[0] == files[j]);
    a.lemma_filter_contains(p, i);
    b.lemma_filter_contains(p, 0);
    assert(a.filter(p).len() > 0 && b.filter(p).len() > 0);
}

/// Where no two first links have one path, the path of a first link stands for the paths
/// of all entries with its device and inode number, in their order, if they are more than
/// one, and for itself alone if not. A path that is no first link's stands for itself.
pub proof fn lemma_links_listed(s: Seq<FileRecord>, i: int, k: Seq<Component>)
    requires
        0 <= i < first_links(s).len(),
        forall|a: int, b: int|
            #![trigger first_links(s)[a], first_links(s)[b]]
            0 <= a < b < first_links(s).len() ==> components(first_links(s)[a].path) != components(
                first_links(s)[b].path,
            ),
    ensures
        ({
            let e = first_links(s)[i];
            let links = s.filter(|x: FileRecord| x.dev == e.dev && x.ino == e.ino);
            &&& links.len() > 1 ==> expansion(s, components(e.path)) == Some(
                links.map_values(|x: FileRecord| x.path),
            )
            &&& links.len() <= 1 ==> expansion(s, components(e.path)) is None
            &&& (forall|a: int|
                0 <= a < first_links(s).len() ==> components((#[trigger] first_links(s)[a]).path)
                    != k) ==> expansion(s, k) is None
        }),
{
    let firsts = first_links(s);
    let e = firsts[i];
    let links = s.filter(|x: FileRecord| x.dev == e.dev && x.ino == e.ino);
    let p = |x: FileRecord| x.dev == e.dev && x.ino == e.ino;
    let q = |x: FileRecord| same_inode(x, e);
    assert(p =~= q);
    assert(links == links_of(s, e));
    assert(paths_of(links) =~= links.map_values(|x: FileRecord| x.path));
    if links.len() > 1 {
        lemma_links_not_lost(s, i);
    } else {
        assert forall|a: int|
            0 <= a < firsts.len() && components((#[trigger] firsts[a]).path) == components(
                e.path,
            ) implies links_of(s, firsts[a]).len() <= 1 by {
            if a < i {
                assert(components(firsts[a].path) != components(firsts[i].path));
            } else if i < a {
                assert(components(firsts[i].path) != components(firsts[a].path));
            }
        }
        lemma_expansion_none(s, firsts, components(e.path));
    }
    if forall|a: int| 0 <= a < firsts.len() ==> components((#[trigger] firsts[a]).path) != k {
        lemma_expansion_none(s, firsts, k);
    }
}

proof fn lemma_expansion_none(s: Seq<FileRecord>, firsts: Seq<FileRecord>, k: Seq<Component>)
    requires
        forall|a: int|
            0 <= a < firsts.len() && components((#[trigger] firsts[a]).path) == k ==> links_of(
                s,
                firsts[a],
            ).len() <= 1,
    ensures
        expansion_in(s, firsts, k) is None,
    decreases firsts.len(),
{
    if firsts.len() > 0 {
        let front = firsts.drop_last();
        assert forall|a: int|
            0 <= a < front.len() && components((#[trigger] front[a]).path) == k implies links_of(
            s,
            front[a],
        ).len() <= 1 by {
            assert(front[a] == firsts[a]);
        }
        lemma_expansion_none(s, front, k);
        assert(firsts[firsts.len() - 1] == firsts.last());
    }
}

} // verus!
