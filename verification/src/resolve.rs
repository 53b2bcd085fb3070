//! Settling the small groups of files of one size by comparing bytes, and putting
//! all groups of duplicates together.

use crate::compare::{
    by_path, byte_compare_groups, group_views, lemma_groups_are_twins, lemma_twins_are_grouped,
    path_pairs, twin_groups, unmatched, LoadedFile, BYTE_CMP_THRESHOLD,
};
use crate::digest::{blake3_digest, hash_bytes, Digest};
use crate::entry::{records, FileEntry, FileRecord};
use crate::filter::{lists_several, LinkTable, SizeGroup};
use crate::order::{
    keyed, lemma_sort_map, lemma_stable_sort, lemma_values_at_contains, map_pairs, sort_by_key,
    sorted, stable_sort, values_at,
};
use crate::path::{components, path_views, FilePath, PathKey};
use crate::pipeline::{digest_groups, linked_paths, push_linked_paths};
use crate::text::{lossy_text, to_string_lossy};
use vstd::prelude::*;
use vstd::seq_lib::lemma_seq_concat_contains_all_elements;
use vstd::utf8::encode_utf8;

verus! {

/// The paths that the paths of a group stand for, hard links included.
pub open spec fn expanded(links: LinkTable, group: Seq<Seq<u8>>) -> Seq<Seq<u8>>
    decreases group.len(),
{
    if group.len() == 0 {
        Seq::empty()
    } else {
        expanded(links, group.drop_last()) + linked_paths(links, group.last())
    }
}

/// The key of a group that was found by comparing bytes: the digest of its first
/// path, as text.
pub open spec fn path_digest(path: Seq<u8>) -> Seq<u8> {
    blake3_digest(encode_utf8(lossy_text(path)))
}

/// Groups that were found by comparing bytes, with their hard links and keys.
pub open spec fn keyed_twins(links: LinkTable, groups: Seq<Seq<Seq<u8>>>) -> Seq<
    (Seq<u8>, Seq<Seq<u8>>),
> {
    Seq::new(
        groups.len(),
        |i: int| (path_digest(expanded(links, groups[i])[0]), expanded(links, groups[i])),
    )
}

/// What size groups stand for.
pub open spec fn size_group_views(s: Seq<SizeGroup>) -> Seq<(u64, Seq<FileRecord>)> {
    Seq::new(s.len(), |i: int| (s[i].size, records(s[i].entries@)))
}

/// The files of a group with their contents.
pub open spec fn loaded<'a>(entries: Seq<FileEntry>, contents: Seq<Option<&'a [u8]>>) -> Seq<
    LoadedFile<'a>,
> {
    Seq::new(entries.len(), |i: int| LoadedFile { entry: entries[i], content: contents[i] })
}

/// The digest of a path, as text.
pub fn hash_of_path(path: &FilePath) -> (r: Digest)
    ensures
        r@ == path_digest(path@),
{
    let text = to_string_lossy(path.bytes.as_slice());
    hash_bytes(text.as_str().as_bytes())
}

/// Adds the hard links to a group of paths.
pub fn expand_links(group: &Vec<FilePath>, links: &LinkTable) -> (r: Vec<FilePath>)
    ensures
        path_views(r@) == expanded(*links, path_views(group@)),
{
    let ghost paths = path_views(group@);
    let mut r: Vec<FilePath> = Vec::new();
    let mut i: usize = 0;
    proof {
        assert(paths.take(0) =~= Seq::empty());
        assert(path_views(r@) =~= expanded(*links, paths.take(0)));
    }
    while i < group.len()
        invariant
            i <= group@.len(),
            paths == path_views(group@),
            path_views(r@) == expanded(*links, paths.take(i as int)),
        decreases group@.len() - i,
    {
        proof {
            assert(paths.take(i + 1).drop_last() =~= paths.take(i as int));
            assert(paths.take(i + 1).last() == group@[i as int]@);
        }
        push_linked_paths(&mut r, &group[i], links);
        i = i + 1;
    }
    assert(paths.take(i as int) =~= paths);
    r
}

proof fn lemma_expanded_nonempty(links: LinkTable, group: Seq<Seq<u8>>)
    requires
        lists_several(links),
    ensures
        expanded(links, group).len() >= group.len(),
    decreases group.len(),
{
    if group.len() > 0 {
        lemma_expanded_nonempty(links, group.drop_last());
        assert(linked_paths(links, group.last()).len() >= 1) by {
            let k = components(group.last());
            assert(links.find(k) matches Some(paths) ==> paths@.len() > 1);
        }
    }
}

proof fn lemma_twin_groups_plural(s: Seq<LoadedFile>, n: int)
    ensures
        forall|i: int|
            0 <= i < twin_groups(s, n).len() ==> (#[trigger] twin_groups(s, n)[i]).len() > 1,
    decreases n,
{
    if n > 0 {
        lemma_twin_groups_plural(s, n - 1);
        let front = twin_groups(s, n - 1);
        let all = twin_groups(s, n);
        assert forall|i: int| 0 <= i < all.len() implies (#[trigger] all[i]).len() > 1 by {
            if i < front.len() {
                assert(all[i] == front[i]);
            }
        }
    }
}

/// What the size groups that were looked at came to: groups of duplicates, found by
/// comparing bytes, and files that are left to be hashed.
pub struct Resolution {
    pub groups: DuplicateGroups,
    pub candidates: Vec<SizeGroup>,
}

impl View for Resolution {
    type V = (Seq<(Seq<u8>, Seq<Seq<u8>>)>, Seq<(u64, Seq<FileRecord>)>);

    open spec fn view(&self) -> (Seq<(Seq<u8>, Seq<Seq<u8>>)>, Seq<(u64, Seq<FileRecord>)>) {
        (digest_groups(self.groups@), size_group_views(self.candidates@))
    }
}

/// What is known once a further group of files of one size was looked at: a large
/// group is left to be hashed; of a small one, the files that hold the same bytes
/// make groups of duplicates, and the others are left where they are more than one.
pub open spec fn settled(
    links: LinkTable,
    known: (Seq<(Seq<u8>, Seq<Seq<u8>>)>, Seq<(u64, Seq<FileRecord>)>),
    group: SizeGroup,
    contents: Seq<Option<&[u8]>>,
) -> (Seq<(Seq<u8>, Seq<Seq<u8>>)>, Seq<(u64, Seq<FileRecord>)>) {
    let (found, left) = known;
    if group.entries@.len() > BYTE_CMP_THRESHOLD {
        (found, left.push((group.size, records(group.entries@))))
    } else {
        let files = by_path(loaded(group.entries@, contents));
        let alone = unmatched(files, files.len() as int);
        (
            found + keyed_twins(links, twin_groups(files, files.len() as int)),
            if alone.len() > 1 {
                left.push((group.size, alone))
            } else {
                left
            },
        )
    }
}

/// Whether a group of files of one size is settled by comparing bytes.
pub fn compares_bytes(group: &SizeGroup) -> (r: bool)
    ensures
        r == (group.entries@.len() <= BYTE_CMP_THRESHOLD),
        r == (group.entries@.len() <= 8),
{
    group.entries.len() <= BYTE_CMP_THRESHOLD
}

impl Resolution {
    /// Nothing looked at yet.
    pub fn new() -> (r: Self)
        ensures
            r@ == (Seq::<(Seq<u8>, Seq<Seq<u8>>)>::empty(), Seq::<(u64, Seq<FileRecord>)>::empty()),
    {
        let r = Resolution { groups: Vec::new(), candidates: Vec::new() };
        assert(r@.0 =~= Seq::empty());
        assert(r@.1 =~= Seq::empty());
        r
    }

    /// Looks at a group of files of one size. A large group is left to be hashed. The
    /// contents of the files of a small one are compared; those that match nothing
    /// are left to be hashed where they are more than one.
    pub fn settle(&mut self, group: SizeGroup, contents: Vec<Option<&[u8]>>, links: &LinkTable)
        requires
            group.entries@.len() <= BYTE_CMP_THRESHOLD ==> contents@.len()
                == group.entries@.len(),
            lists_several(*links),
        ensures
            final(self)@ == settled(*links, old(self)@, group, contents@),
    {
        let ghost groups0 = digest_groups(self.groups@);
        let ghost candidates0 = size_group_views(self.candidates@);
        if !compares_bytes(&group) {
            self.candidates.push(group);
            assert(size_group_views(self.candidates@) =~= candidates0.push(
                (group.size, records(group.entries@)),
            ));
            return ;
        }
        let size: u64 = group.size;
        let ghost all = loaded(group.entries@, contents@);
        let mut files: Vec<LoadedFile> = Vec::new();
        let mut at: usize = 0;
        let entries = group.entries;
        for entry in it: entries
            invariant
                it.seq() == entries@,
                at == it.index(),
                entries@.len() <= BYTE_CMP_THRESHOLD,
                contents@.len() == entries@.len(),
                all == loaded(entries@, contents@),
                files@.len() == it.index(),
                forall|i: int| 0 <= i < files@.len() ==> #[trigger] files@[i] == all[i],
        {
            let content = contents[at];
            files.push(LoadedFile { entry, content });
            at = at + 1;
        }
        assert(files@ =~= all);
        let ghost sorted = by_path(all);
        let ghost n = all.len() as int;
        proof {
            lemma_stable_sort::<PathKey, LoadedFile>(path_pairs(all));
            assert(sorted.len() == n);
            lemma_twin_groups_plural(sorted, n);
        }
        let (dups, remaining) = byte_compare_groups(files);
        let ghost found = twin_groups(sorted, n);
        let ghost keyed_found = keyed_twins(*links, found);
        assert(groups0 + keyed_found.take(0) =~= groups0);
        let mut i: usize = 0;
        while i < dups.len()
            invariant
                i <= dups@.len(),
                lists_several(*links),
                found == group_views(dups@),
                forall|j: int| 0 <= j < found.len() ==> (#[trigger] found[j]).len() > 1,
                keyed_found == keyed_twins(*links, found),
                digest_groups(self.groups@) == groups0 + keyed_found.take(i as int),
                size_group_views(self.candidates@) == candidates0,
            decreases dups@.len() - i,
        {
            let ghost here = digest_groups(self.groups@);
            assert(found[i as int] == path_views(dups@[i as int]@));
            let paths = expand_links(&dups[i], links);
            proof {
                lemma_expanded_nonempty(*links, found[i as int]);
                assert(path_views(paths@).len() == paths@.len());
                assert(path_views(paths@)[0] == paths@[0]@);
            }
            let key = hash_of_path(&paths[0]);
            let ghost views = path_views(paths@);
            self.groups.push((key, paths));
            proof {
                assert(digest_groups(self.groups@) =~= here.push((key@, views)));
                assert(keyed_found[i as int] == (key@, views));
                assert(digest_groups(self.groups@) =~= groups0 + keyed_found.take(i + 1));
            }
            i = i + 1;
        }
        assert(keyed_found.take(i as int) =~= keyed_found);
        if remaining.len() > 1 {
            let ghost left = records(remaining@);
            self.candidates.push(SizeGroup { size, entries: remaining });
            assert(size_group_views(self.candidates@) =~= candidates0.push((size, left)));
        }
    }

    /// How many groups comparing bytes has found.
    pub fn compared_groups(&self) -> (r: u64)
        ensures
            r == self.groups@.len(),
    {
        self.groups.len() as u64
    }
}

/// Groups of duplicates, each under a digest.
pub type DuplicateGroups = Vec<(Digest, Vec<FilePath>)>;

/// Puts the groups that were found by comparing bytes and those that were found by
/// hashing together, in the order of their digests. Several groups may stand under one
/// digest; then those found by comparing come first.
pub fn final_groups(compared: DuplicateGroups, hashed: DuplicateGroups) -> (r: DuplicateGroups)
    ensures
        keyed(r@) == stable_sort::<Digest, Vec<FilePath>>(keyed(compared@) + keyed(hashed@)),
        digest_groups(r@) == stable_sort::<Digest, Seq<Seq<u8>>>(
            digest_groups(compared@) + digest_groups(hashed@),
        ),
{
    let ghost c = compared@;
    let ghost h = hashed@;
    let mut all = compared;
    let mut hashed = hashed;
    all.append(&mut hashed);
    let ghost given = keyed(all@);
    assert(given =~= keyed(c) + keyed(h));
    let r = sort_by_key(all);
    proof {
        let f = |paths: Vec<FilePath>| path_views(paths@);
        lemma_sort_map::<Digest, Vec<FilePath>, Seq<Seq<u8>>>(given, f);
        assert(map_pairs(given, f) =~= digest_groups(c) + digest_groups(h));
        assert(map_pairs(keyed(r@), f) =~= digest_groups(r@));
    }
    r
}

proof fn lemma_expanded_has(links: LinkTable, group: Seq<Seq<u8>>, path: Seq<u8>)
    ensures
        expanded(links, group).contains(path) <==> exists|i: int|
            0 <= i < group.len() && linked_paths(links, #[trigger] group[i]).contains(path),
    decreases group.len(),
{
    if group.len() > 0 {
        let front = group.drop_last();
        let last = group.len() - 1;
        lemma_expanded_has(links, front, path);
        lemma_seq_concat_contains_all_elements(
            expanded(links, front),
            linked_paths(links, group.last()),
            path,
        );
        if expanded(links, front).contains(path) {
            let i = choose|i: int|
                0 <= i < front.len() && linked_paths(links, #[trigger] front[i]).contains(path);
            assert(linked_paths(links, group[i]).contains(path));
        }
        if linked_paths(links, group.last()).contains(path) {
            assert(linked_paths(links, group[last]).contains(path));
        }
        if exists|i: int|
            0 <= i < group.len() && linked_paths(links, #[trigger] group[i]).contains(path) {
            let i = choose|i: int|
                0 <= i < group.len() && linked_paths(links, #[trigger] group[i]).contains(path);
            if i < last {
                assert(linked_paths(links, front[i]).contains(path));
            }
        }
    }
}

proof fn lemma_expanded(links: LinkTable, group: Seq<Seq<u8>>)
    ensures
        forall|path: Seq<u8>| #[trigger]
            expanded(links, group).contains(path) <==> exists|i: int|
                0 <= i < group.len() && linked_paths(links, #[trigger] group[i]).contains(path),
{
    assert forall|path: Seq<u8>| #[trigger]
        expanded(links, group).contains(path) <==> exists|i: int|
            0 <= i < group.len() && linked_paths(links, #[trigger] group[i]).contains(path) by {
        lemma_expanded_has(links, group, path);
    }
}

/// A group that was found by comparing bytes has more than one path, under the digest
/// of the first one; its paths are those of the files whose content is the same bytes,
/// and of the hard links to them.
pub proof fn lemma_compared_group_agrees(files: Seq<LoadedFile>, links: LinkTable, g: int)
    requires
        lists_several(links),
        0 <= g < twin_groups(by_path(files), files.len() as int).len(),
    ensures
        ({
            let group = keyed_twins(links, twin_groups(by_path(files), files.len() as int))[g];
            &&& group.1.len() > 1
            &&& group.0 == path_digest(group.1[0])
            &&& exists|l: int|
                0 <= l < files.len() && (#[trigger] files[l]).content is Some && forall|
                    path: Seq<u8>,
                | #[trigger]
                    group.1.contains(path) <==> exists|j: int|
                        0 <= j < files.len() && (#[trigger] files[j]).content is Some
                            && files[j].content->0@ == files[l].content->0@ && linked_paths(
                            links,
                            files[j].entry.path@,
                        ).contains(path)
        }),
{
    let found = twin_groups(by_path(files), files.len() as int);
    let paths = found[g];
    assert(found.contains(paths));
    lemma_groups_are_twins(files, paths);
    lemma_expanded_nonempty(links, paths);
    lemma_expanded(links, paths);
    let group = keyed_twins(links, found)[g];
    let l = choose|l: int|
        0 <= l < files.len() && (#[trigger] files[l]).content is Some && forall|path: Seq<u8>|
            #[trigger] paths.contains(path) <==> exists|j: int|
                0 <= j < files.len() && (#[trigger] files[j]).content is Some
                    && files[j].content->0@ == files[l].content->0@ && files[j].entry.path@ == path;
    assert forall|path: Seq<u8>| #[trigger] group.1.contains(path) <==> exists|j: int|
        0 <= j < files.len() && (#[trigger] files[j]).content is Some && files[j].content->0@
            == files[l].content->0@ && linked_paths(links, files[j].entry.path@).contains(path) by {
        if group.1.contains(path) {
            let i = choose|i: int|
                0 <= i < paths.len() && linked_paths(links, #[trigger] paths[i]).contains(path);
            assert(paths.contains(paths[i]));
            let j = choose|j: int|
                0 <= j < files.len() && (#[trigger] files[j]).content is Some
                    && files[j].content->0@ == files[l].content->0@ && files[j].entry.path@
                    == paths[i];
            assert(files[j].content is Some);
        }
        if exists|j: int|
            0 <= j < files.len() && (#[trigger] files[j]).content is Some && files[j].content->0@
                == files[l].content->0@ && linked_paths(links, files[j].entry.path@).contains(
                path,
            ) {
            let j = choose|j: int|
                0 <= j < files.len() && (#[trigger] files[j]).content is Some
                    && files[j].content->0@ == files[l].content->0@ && linked_paths(
                    links,
                    files[j].entry.path@,
                ).contains(path);
            assert(paths.contains(files[j].entry.path@));
            let i = choose|i: int| 0 <= i < paths.len() && paths[i] == files[j].entry.path@;
            assert(linked_paths(links, paths[i]).contains(path));
        }
    }
    assert(files[l].content is Some);
}

/// The paths of two files that hold the same bytes, and of the hard links to them,
/// end up in one group when the files are compared.
pub proof fn lemma_compared_files_meet(files: Seq<LoadedFile>, links: LinkTable, i: int, j: int)
    requires
        0 <= i < j < files.len(),
        files[i].content is Some,
        files[j].content is Some,
        files[i].content->0@ == files[j].content->0@,
    ensures
        exists|group: (Seq<u8>, Seq<Seq<u8>>)| #[trigger]
            keyed_twins(links, twin_groups(by_path(files), files.len() as int)).contains(group) && (
            forall|path: Seq<u8>|
                linked_paths(links, files[i].entry.path@).contains(path) || linked_paths(
                    links,
                    files[j].entry.path@,
                ).contains(path) ==> #[trigger] group.1.contains(path)),
{
    let found = twin_groups(by_path(files), files.len() as int);
    lemma_twins_are_grouped(files, i, j);
    let paths = choose|paths: Seq<Seq<u8>>| #[trigger]
        found.contains(paths) && paths.contains(files[i].entry.path@) && paths.contains(
            files[j].entry.path@,
        );
    let g = choose|g: int| 0 <= g < found.len() && found[g] == paths;
    let group = keyed_twins(links, found)[g];
    lemma_expanded(links, paths);
    let a = choose|a: int| 0 <= a < paths.len() && paths[a] == files[i].entry.path@;
    let b = choose|b: int| 0 <= b < paths.len() && paths[b] == files[j].entry.path@;
    assert forall|path: Seq<u8>|
        linked_paths(links, files[i].entry.path@).contains(path) || linked_paths(
            links,
            files[j].entry.path@,
        ).contains(path) implies #[trigger] group.1.contains(path) by {
        if linked_paths(links, files[i].entry.path@).contains(path) {
            assert(linked_paths(links, paths[a]).contains(path));
        } else {
            assert(linked_paths(links, paths[b]).contains(path));
        }
    }
    assert(keyed_twins(links, found).contains(group));
}

/// No group is lost and none is added when the groups are put in order, and every one
/// keeps its digest and its paths.
pub proof fn lemma_every_group_stays<V>(groups: Seq<(Seq<u8>, V)>)
    ensures
        ({
            let ordered = stable_sort::<Digest, V>(groups);
            &&& ordered.len() == groups.len()
            &&& sorted::<Digest, V>(ordered)
            &&& forall|group: (Seq<u8>, V)| #[trigger]
                ordered.contains(group) <==> groups.contains(group)
            &&& forall|digest: Seq<u8>| #[trigger]
                values_at(ordered, digest) == values_at(groups, digest)
        }),
{
    let ordered = stable_sort::<Digest, V>(groups);
    lemma_stable_sort::<Digest, V>(groups);
    assert forall|group: (Seq<u8>, V)| #[trigger]
        ordered.contains(group) <==> groups.contains(group) by {
        lemma_values_at_contains(ordered, group.0);
        lemma_values_at_contains(groups, group.0);
        assert(values_at(ordered, group.0) == values_at(groups, group.0));
        assert(values_at(ordered, group.0).contains(group.1) <==> ordered.contains(
            (group.0, group.1),
        ));
        assert(values_at(groups, group.0).contains(group.1) <==> groups.contains(
            (group.0, group.1),
        ));
    }
}

/// Where the groups that were found have more than one path, so have those that were put
/// together.
pub proof fn lemma_final_groups_plural(
    compared: Seq<(Seq<u8>, Vec<FilePath>)>,
    hashed: Seq<(Seq<u8>, Vec<FilePath>)>,
)
    requires
        forall|i: int| 0 <= i < compared.len() ==> (#[trigger] compared[i]).1@.len() > 1,
        forall|i: int| 0 <= i < hashed.len() ==> (#[trigger] hashed[i]).1@.len() > 1,
    ensures
        forall|i: int|
            0 <= i < compared.len() + hashed.len() ==> (#[trigger] stable_sort::<
                Digest,
                Vec<FilePath>,
            >(compared + hashed)[i]).1@.len() > 1,
{
    let all = compared + hashed;
    let ordered = stable_sort::<Digest, Vec<FilePath>>(all);
    lemma_stable_sort::<Digest, Vec<FilePath>>(all);
    assert forall|i: int| 0 <= i < ordered.len() implies (#[trigger] ordered[i]).1@.len() > 1 by {
        assert(all.contains(ordered[i]));
        let j = choose|j: int| 0 <= j < all.len() && all[j] == ordered[i];
        if j < compared.len() {
            assert(compared[j].1@.len() > 1);
        } else {
            assert(hashed[j - compared.len()].1@.len() > 1);
        }
    }
}

/// What a path stands for: the hard links that are listed for it, else itself.
pub proof fn lemma_linked(links: LinkTable, path: Seq<u8>)
    ensures
        linked_paths(links, path) == match links.find(components(path)) {
            Some(paths) => paths@.map_values(|p: FilePath| p@),
            None => seq![path],
        },
{
    if let Some(paths) = links.find(components(path)) {
        assert(path_views(paths@) =~= paths@.map_values(|p: FilePath| p@));
    }
}

/// With its hard links a group holds what each of its paths stands for, one after the
/// other.
pub proof fn lemma_expanded_follow(links: LinkTable, group: Seq<Seq<u8>>)
    ensures
        expanded(links, group) == group.map_values(
            |path: Seq<u8>| linked_paths(links, path),
        ).flatten(),
    decreases group.len(),
{
    let f = |path: Seq<u8>| linked_paths(links, path);
    if group.len() > 0 {
        let front = group.drop_last();
        lemma_expanded_follow(links, front);
        assert(group.map_values(f) =~= front.map_values(f).push(f(group.last())));
        front.map_values(f).lemma_flatten_push(f(group.last()));
    } else {
        assert(group.map_values(f).flatten() =~= Seq::empty());
    }
}

/// A group that was found by comparing stands under the BLAKE3 hash of its first path, as
/// text in UTF-8.
pub proof fn lemma_compared_group_key(links: LinkTable, groups: Seq<Seq<Seq<u8>>>, i: int)
    requires
        0 <= i < groups.len(),
    ensures
        keyed_twins(links, groups).len() == groups.len(),
        keyed_twins(links, groups)[i].1 == groups[i].map_values(
            |path: Seq<u8>| linked_paths(links, path),
        ).flatten(),
        keyed_twins(links, groups)[i].0 == blake3_digest(
            encode_utf8(lossy_text(keyed_twins(links, groups)[i].1[0])),
        ),
{
    lemma_expanded_follow(links, groups[i]);
}

/// More than eight files of one size are left to be hashed as they are. Up to eight are
/// compared: the groups that are found come behind those that are known, and the files
/// that match nothing are left where they are more than one.
pub proof fn lemma_settled(
    links: LinkTable,
    known: (Seq<(Seq<u8>, Seq<Seq<u8>>)>, Seq<(u64, Seq<FileRecord>)>),
    group: SizeGroup,
    contents: Seq<Option<&[u8]>>,
)
    ensures
        ({
            let r = settled(links, known, group, contents);
            let files = Seq::new(
                group.entries@.len(),
                |i: int| LoadedFile { entry: group.entries@[i], content: contents[i] },
            );
            let n = files.len() as int;
            let left = unmatched(by_path(files), n);
            &&& group.entries@.len() > 8 ==> r.0 == known.0 && r.1 == known.1.push(
                (group.size, records(group.entries@)),
            )
            &&& group.entries@.len() <= 8 ==> r.0 == known.0 + keyed_twins(
                links,
                twin_groups(by_path(files), n),
            )
            &&& group.entries@.len() <= 8 && left.len() > 1 ==> r.1 == known.1.push(
                (group.size, left),
            )
            &&& group.entries@.len() <= 8 && left.len() <= 1 ==> r.1 == known.1
        }),
{
    let files = loaded(group.entries@, contents);
    assert(files =~= Seq::new(
        group.entries@.len(),
        |i: int| LoadedFile { entry: group.entries@[i], content: contents[i] },
    ));
    lemma_stable_sort::<PathKey, LoadedFile>(path_pairs(files));
    assert(by_path(files).len() == files.len());
}

} // verus!
