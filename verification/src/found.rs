//! What a search finds, from the files that take part to the groups of duplicates.

use crate::compare::{
    alone, by_path, lemma_left_are_alone, path_pairs, LoadedFile, BYTE_CMP_THRESHOLD,
};
use crate::digest::Digest;
use crate::entry::{records, FileEntry, FileRecord};
use crate::filter::{
    are_size_groups, expansion, first_links, lemma_first_links, lemma_links_not_lost, links_of,
    list_view, lists_several, of_size, paths_of, same_inode, LinkTable, SizeGroup,
};
use crate::order::{lemma_stable_sort, stable_sort};
use crate::path::{components, same_path, Component, PathKey};
use crate::permuted::{
    lemma_expansion_from, lemma_first_paths_distinct, one_file_each, one_size_each,
};
use crate::pipeline::{all_entries, hashed_as, jobs_of, linked_paths, PartialGroup};
use crate::resolve::{lemma_compared_group_agrees, loaded, size_group_views};
use crate::search::{
    hash_groups, hashed_with, holds_both, lemma_duplicates_found, resolved, were_hashed,
};
use vstd::prelude::*;

verus! {

/// Whether comparing, wherever it came to the file, found this content, or could not read
/// the file.
pub open spec fn compared_as(
    groups: Seq<SizeGroup>,
    contents: Seq<Seq<Option<&[u8]>>>,
    file: FileRecord,
    held: Option<Seq<u8>>,
) -> bool {
    forall|g: int, a: int|
        #![trigger groups[g].entries@[a]]
        0 <= g < groups.len() && 0 <= a < groups[g].entries@.len() && groups[g].entries@.len()
            <= BYTE_CMP_THRESHOLD && groups[g].entries@[a]@ == file ==> match contents[g][a] {
            Some(bytes) => held == Some(bytes@),
            None => held is None,
        }
}

/// Whether hashing, wherever it came to the file, gave the digests of this content.
pub open spec fn digested_as(
    candidates: Seq<SizeGroup>,
    partials: Seq<Option<Digest>>,
    parts: Seq<PartialGroup>,
    fulls: Seq<Option<Digest>>,
    file: FileRecord,
    content: Seq<u8>,
) -> bool {
    let entries = all_entries(candidates);
    forall|m: int|
        #![trigger entries[m]]
        0 <= m < entries.len() && entries[m]@ == file ==> hashed_as(
            entries,
            partials,
            jobs_of(parts),
            fulls,
            m,
            content,
        )
}

proof fn lemma_entry_of_group(groups: Seq<SizeGroup>, m: int) -> (r: (int, int))
    requires
        0 <= m < all_entries(groups).len(),
    ensures
        0 <= r.0 < groups.len(),
        0 <= r.1 < groups[r.0].entries@.len(),
        all_entries(groups)[m] == groups[r.0].entries@[r.1],
    decreases groups.len(),
{
    let front = groups.drop_last();
    if m < all_entries(front).len() {
        let r = lemma_entry_of_group(front, m);
        assert(front[r.0] == groups[r.0]);
        r
    } else {
        (groups.len() - 1, m - all_entries(front).len())
    }
}

proof fn lemma_left_from(
    links: LinkTable,
    groups: Seq<SizeGroup>,
    contents: Seq<Seq<Option<&[u8]>>>,
    n: int,
    c: int,
    e: FileRecord,
) -> (g: int)
    requires
        0 <= n <= groups.len(),
        0 <= c < resolved(links, groups, contents, n).1.len(),
        resolved(links, groups, contents, n).1[c].1.contains(e),
    ensures
        0 <= g < n,
        records(groups[g].entries@).contains(e),
    decreases n,
{
    if n == 0 {
        0
    } else {
        let before = resolved(links, groups, contents, n - 1).1;
        let after = resolved(links, groups, contents, n).1;
        if c < before.len() {
            assert(after[c] == before[c]);
            lemma_left_from(links, groups, contents, n - 1, c, e)
        } else {
            let group = groups[n - 1];
            if group.entries@.len() <= BYTE_CMP_THRESHOLD {
                let files = loaded(group.entries@, contents[n - 1]);
                lemma_stable_sort::<PathKey, LoadedFile>(path_pairs(files));
                assert(by_path(files).len() == files.len());
                lemma_left_are_alone(files);
                let i = choose|i: int|
                    0 <= i < files.len() && #[trigger] alone(files, i) && files[i].entry@ == e;
                assert(records(group.entries@)[i] == e);
            }
            n - 1
        }
    }
}

proof fn lemma_in_size_group(
    s: Seq<FileRecord>,
    groups: Seq<SizeGroup>,
    g: int,
    e: FileRecord,
)
    requires
        are_size_groups(groups, first_links(s)),
        0 <= g < groups.len(),
        records(groups[g].entries@).contains(e),
    ensures
        s.contains(e),
{
    let firsts = first_links(s);
    let size = groups[g].size;
    let p = |x: FileRecord| x.size == size;
    assert(records(groups[g].entries@) == of_size(firsts, size));
    assert(of_size(firsts, size) == firsts.filter(p));
    firsts.lemma_filter_contains_rev(p, e);
    lemma_first_links(s);
    let m = choose|m: int| 0 <= m < firsts.len() && firsts[m] == e;
    assert(s.contains(firsts[m]));
}

proof fn lemma_hashed_with(
    s: Seq<FileRecord>,
    links: LinkTable,
    groups: Seq<SizeGroup>,
    contents: Seq<Seq<Option<&[u8]>>>,
    candidates: Seq<SizeGroup>,
    partials: Seq<Option<Digest>>,
    parts: Seq<PartialGroup>,
    fulls: Seq<Option<Digest>>,
    file: FileRecord,
    content: Seq<u8>,
)
    requires
        one_file_each(s),
        one_size_each(s),
        are_size_groups(groups, first_links(s)),
        size_group_views(candidates) == resolved(links, groups, contents, groups.len() as int).1,
        s.contains(file),
        digested_as(candidates, partials, parts, fulls, file, content),
    ensures
        hashed_with(candidates, partials, parts, fulls, file, content),
{
    let entries = all_entries(candidates);
    let views = size_group_views(candidates);
    assert forall|m: int|
        #![trigger entries[m]]
        0 <= m < entries.len() && same_path(entries[m].path@, file.path) implies entries[m].size
        == file.size by {
        let (c, p) = lemma_entry_of_group(candidates, m);
        let e = entries[m]@;
        assert(views[c].1[p] == e);
        assert(views[c].1.contains(e));
        let g = lemma_left_from(links, groups, contents, groups.len() as int, c, e);
        lemma_in_size_group(s, groups, g, e);
        let i = choose|i: int| 0 <= i < s.len() && s[i] == e;
        let j = choose|j: int| 0 <= j < s.len() && s[j] == file;
        assert(same_inode(s[i], s[j]));
        assert(s[i].size == s[j].size);
    }
}

proof fn lemma_path_is_linked(s: Seq<FileRecord>, links: LinkTable, i: int, x: FileRecord)
    requires
        one_file_each(s),
        forall|k: Seq<Component>| list_view(#[trigger] links.find(k)) == expansion(s, k),
        0 <= i < s.len(),
        first_links(s).contains(x),
        same_inode(x, s[i]),
    ensures
        linked_paths(links, x.path).contains(s[i].path),
{
    let firsts = first_links(s);
    let k = components(x.path);
    let p = |e: FileRecord| same_inode(e, x);
    let all = links_of(s, x);
    assert(all == s.filter(p));
    s.lemma_filter_contains(p, i);
    let a = choose|a: int| 0 <= a < all.len() && all[a] == s[i];
    assert(paths_of(all)[a] == s[i].path);
    lemma_first_links(s);
    lemma_first_paths_distinct(s, s);
    let m = choose|m: int| 0 <= m < firsts.len() && firsts[m] == x;
    assert(list_view(links.find(k)) == expansion(s, k));
    if all.len() > 1 {
        lemma_links_not_lost(s, m);
        assert(linked_paths(links, x.path) == paths_of(all));
    } else {
        assert(links_of(s, firsts[m])[0] == firsts[m]);
        assert(s[i] == x);
        match links.find(k) {
            Some(paths) => {
                lemma_lists_first(s, x, k);
            },
            None => {
                assert(linked_paths(links, x.path) =~= seq![x.path]);
                assert(seq![x.path][0] == x.path);
            },
        }
    }
}

proof fn lemma_lists_first(s: Seq<FileRecord>, x: FileRecord, k: Seq<Component>)
    requires
        one_file_each(s),
        first_links(s).contains(x),
        components(x.path) == k,
        links_of(s, x).len() <= 1,
    ensures
        expansion(s, k) is None,
{
    if expansion(s, k) is Some {
        let firsts = first_links(s);
        let e = lemma_expansion_from(s, firsts, k);
        lemma_first_paths_distinct(s, s);
        let a = choose|a: int| 0 <= a < firsts.len() && firsts[a] == e;
        let b = choose|b: int| 0 <= b < firsts.len() && firsts[b] == x;
        if a < b {
            assert(components(firsts[a].path) != components(firsts[b].path));
        } else if b < a {
            assert(components(firsts[b].path) != components(firsts[a].path));
        }
    }
}

/// A search finds files with the same bytes, whatever becomes of the others. Take two
/// entries of one size that are not links to one file, and the entries `x` and `y` that
/// stand for their files, where these hold the same bytes. Where the two files were
/// compared, both could be read then, or neither could; where they were hashed, that gave
/// the digests of what they hold. Then the paths of the two entries are in one of the
/// groups that the search comes to.
pub proof fn lemma_same_bytes_found(
    s: Seq<FileRecord>,
    links: LinkTable,
    groups: Seq<SizeGroup>,
    contents: Seq<Seq<Option<&[u8]>>>,
    candidates: Seq<SizeGroup>,
    partials: Seq<Option<Digest>>,
    parts: Seq<PartialGroup>,
    fulls: Seq<Option<Digest>>,
    i: int,
    j: int,
    x: FileRecord,
    y: FileRecord,
    held: Option<Seq<u8>>,
    content: Seq<u8>,
)
    requires
        one_file_each(s),
        one_size_each(s),
        are_size_groups(groups, first_links(s)),
        forall|k: Seq<Component>| list_view(#[trigger] links.find(k)) == expansion(s, k),
        lists_several(links),
        size_group_views(candidates) == resolved(links, groups, contents, groups.len() as int).1,
        were_hashed(candidates, partials, parts, fulls),
        0 <= i < s.len(),
        0 <= j < s.len(),
        s[i].size == s[j].size,
        !same_inode(s[i], s[j]),
        first_links(s).contains(x),
        first_links(s).contains(y),
        same_inode(x, s[i]),
        same_inode(y, s[j]),
        held is None || held == Some(content),
        compared_as(groups, contents, x, held),
        compared_as(groups, contents, y, held),
        digested_as(candidates, partials, parts, fulls, x, content),
        digested_as(candidates, partials, parts, fulls, y, content),
    ensures
        exists|group: (Seq<u8>, Seq<Seq<u8>>)| #[trigger]
            stable_sort::<Digest, Seq<Seq<u8>>>(
                resolved(links, groups, contents, groups.len() as int).0 + hash_groups(
                    links,
                    candidates,
                    parts,
                    fulls,
                ),
            ).contains(group) && group.1.contains(s[i].path) && group.1.contains(s[j].path),
{
    let firsts = first_links(s);
    let size = s[i].size;
    let p = |e: FileRecord| e.size == size;
    let same = of_size(firsts, size);
    lemma_first_links(s);
    let m = choose|m: int| 0 <= m < firsts.len() && firsts[m] == x;
    let n = choose|n: int| 0 <= n < firsts.len() && firsts[n] == y;
    assert(s.contains(firsts[m]) && s.contains(firsts[n]));
    let u = choose|u: int| 0 <= u < s.len() && s[u] == x;
    let v = choose|v: int| 0 <= v < s.len() && s[v] == y;
    assert(same_inode(s[u], s[i]) && same_inode(s[v], s[j]));
    assert(same == firsts.filter(p));
    firsts.lemma_filter_contains(p, m);
    firsts.lemma_filter_contains(p, n);
    let a = choose|a: int| 0 <= a < same.len() && same[a] == x;
    let b = choose|b: int| 0 <= b < same.len() && same[b] == y;
    assert(x != y && a != b);
    let g = choose|g: int| 0 <= g < groups.len() && (#[trigger] groups[g]).size == size;
    let whole = groups[g].entries@;
    assert(records(whole) == same);
    assert(records(whole).len() == whole.len());
    assert(records(whole)[a] == whole[a]@ && records(whole)[b] == whole[b]@);
    lemma_hashed_with(
        s,
        links,
        groups,
        contents,
        candidates,
        partials,
        parts,
        fulls,
        x,
        content,
    );
    lemma_hashed_with(
        s,
        links,
        groups,
        contents,
        candidates,
        partials,
        parts,
        fulls,
        y,
        content,
    );
    let (c, d) = if a < b {
        (a, b)
    } else {
        (b, a)
    };
    assert(groups[g].entries@[c]@ == x || groups[g].entries@[c]@ == y);
    assert(groups[g].entries@[d]@ == x || groups[g].entries@[d]@ == y);
    lemma_duplicates_found(
        links,
        groups,
        contents,
        candidates,
        partials,
        parts,
        fulls,
        g,
        c,
        d,
        content,
    );
    let all = stable_sort::<Digest, Seq<Seq<u8>>>(
        resolved(links, groups, contents, groups.len() as int).0 + hash_groups(
            links,
            candidates,
            parts,
            fulls,
        ),
    );
    let group = choose|group: (Seq<u8>, Seq<Seq<u8>>)| #[trigger]
        all.contains(group) && holds_both(
            links,
            group.1,
            groups[g].entries@[c]@,
            groups[g].entries@[d]@,
        );
    lemma_path_is_linked(s, links, i, x);
    lemma_path_is_linked(s, links, j, y);
    assert(group.1.contains(s[i].path));
    assert(group.1.contains(s[j].path));
}

/// A group that was found by comparing comes from files of one size, eight at most: its
/// paths are those of the files among them that could be read and hold the same bytes as
/// one of them, byte for byte, and of the hard links to these.
pub proof fn lemma_compared_hold_same_bytes(
    links: LinkTable,
    groups: Seq<SizeGroup>,
    contents: Seq<Seq<Option<&[u8]>>>,
    n: int,
    p: int,
) -> (t: int)
    requires
        lists_several(links),
        0 <= n <= groups.len(),
        0 <= p < resolved(links, groups, contents, n).0.len(),
    ensures
        0 <= t < n,
        groups[t].entries@.len() <= 8,
        ({
            let paths = resolved(links, groups, contents, n).0[p].1;
            let entries = groups[t].entries@;
            &&& paths.len() > 1
            &&& exists|l: int|
                0 <= l < entries.len() && #[trigger] contents[t][l] is Some && forall|path: Seq<u8>|
                    #[trigger] paths.contains(path) <==> exists|j: int|
                        0 <= j < entries.len() && #[trigger] contents[t][j] is Some
                            && contents[t][j]->0@ == contents[t][l]->0@ && linked_paths(
                            links,
                            entries[j].path@,
                        ).contains(path)
        }),
    decreases n,
{
    let before = resolved(links, groups, contents, n - 1).0;
    let after = resolved(links, groups, contents, n).0;
    if p < before.len() {
        assert(after[p] == before[p]);
        lemma_compared_hold_same_bytes(links, groups, contents, n - 1, p)
    } else {
        let t = n - 1;
        let entries = groups[t].entries@;
        let files = loaded(entries, contents[t]);
        lemma_stable_sort::<PathKey, LoadedFile>(path_pairs(files));
        assert(by_path(files).len() == files.len());
        let g = p - before.len();
        lemma_compared_group_agrees(files, links, g);
        let paths = after[p].1;
        let l = choose|l: int|
            0 <= l < files.len() && (#[trigger] files[l]).content is Some && forall|path: Seq<u8>|
                #[trigger] paths.contains(path) <==> exists|j: int|
                    0 <= j < files.len() && (#[trigger] files[j]).content is Some
                        && files[j].content->0@ == files[l].content->0@ && linked_paths(
                        links,
                        files[j].entry.path@,
                    ).contains(path);
        assert(contents[t][l] is Some);
        assert forall|path: Seq<u8>| #[trigger] paths.contains(path) <==> exists|j: int|
            0 <= j < entries.len() && #[trigger] contents[t][j] is Some && contents[t][j]->0@
                == contents[t][l]->0@ && linked_paths(links, entries[j].path@).contains(path) by {
            if paths.contains(path) {
                let j = choose|j: int|
                    0 <= j < files.len() && (#[trigger] files[j]).content is Some
                        && files[j].content->0@ == files[l].content->0@ && linked_paths(
                        links,
                        files[j].entry.path@,
                    ).contains(path);
                assert(contents[t][j] is Some);
            }
            if exists|j: int|
                0 <= j < entries.len() && #[trigger] contents[t][j] is Some && contents[t][j]->0@
                    == contents[t][l]->0@ && linked_paths(links, entries[j].path@).contains(
                    path,
                ) {
                let j = choose|j: int|
                    0 <= j < entries.len() && #[trigger] contents[t][j] is Some
                        && contents[t][j]->0@ == contents[t][l]->0@ && linked_paths(
                        links,
                        entries[j].path@,
                    ).contains(path);
                assert(files[j].content is Some);
            }
        }
        t
    }
}

/// The files that are left to be hashed are files of one size: all of more than eight, or
/// of up to eight those that could not be read or whose bytes no other one holds; and they
/// are more than one.
pub proof fn lemma_left_to_hash(
    links: LinkTable,
    groups: Seq<SizeGroup>,
    contents: Seq<Seq<Option<&[u8]>>>,
    n: int,
    c: int,
) -> (t: int)
    requires
        0 <= n <= groups.len(),
        0 <= c < resolved(links, groups, contents, n).1.len(),
    ensures
        0 <= t < n,
        ({
            let left = resolved(links, groups, contents, n).1[c];
            let entries = groups[t].entries@;
            &&& left.0 == groups[t].size
            &&& entries.len() > 8 ==> left.1 == records(entries)
            &&& entries.len() <= 8 ==> left.1.len() > 1 && forall|e: FileRecord| #[trigger]
                left.1.contains(e) <==> exists|i: int|
                    0 <= i < entries.len() && (#[trigger] entries[i])@ == e && (
                    contents[t][i] is None || forall|j: int|
                        0 <= j < entries.len() && j != i && (#[trigger] contents[t][j]) is Some
                            ==> contents[t][j]->0@ != contents[t][i]->0@)
        }),
    decreases n,
{
    let before = resolved(links, groups, contents, n - 1).1;
    let after = resolved(links, groups, contents, n).1;
    if c < before.len() {
        assert(after[c] == before[c]);
        lemma_left_to_hash(links, groups, contents, n - 1, c)
    } else {
        let t = n - 1;
        let entries = groups[t].entries@;
        if entries.len() <= 8 {
            let files = loaded(entries, contents[t]);
            lemma_stable_sort::<PathKey, LoadedFile>(path_pairs(files));
            assert(by_path(files).len() == files.len());
            lemma_left_are_alone(files);
            let left = after[c].1;
            assert forall|e: FileRecord| #[trigger] left.contains(e) <==> exists|i: int|
                0 <= i < entries.len() && (#[trigger] entries[i])@ == e && (contents[t][i] is None
                    || forall|j: int|
                    0 <= j < entries.len() && j != i && (#[trigger] contents[t][j]) is Some
                        ==> contents[t][j]->0@ != contents[t][i]->0@) by {
                if left.contains(e) {
                    let i = choose|i: int|
                        0 <= i < files.len() && #[trigger] alone(files, i) && files[i].entry@ == e;
                    lemma_alone_by_bytes(entries, contents[t], i);
                    assert(entries[i]@ == e);
                }
                if exists|i: int|
                    0 <= i < entries.len() && (#[trigger] entries[i])@ == e && (
                    contents[t][i] is None || forall|j: int|
                        0 <= j < entries.len() && j != i && (#[trigger] contents[t][j]) is Some
                            ==> contents[t][j]->0@ != contents[t][i]->0@) {
                    let i = choose|i: int|
                        0 <= i < entries.len() && (#[trigger] entries[i])@ == e && (
                        contents[t][i] is None || forall|j: int|
                            0 <= j < entries.len() && j != i && (#[trigger] contents[t][j]) is Some
                                ==> contents[t][j]->0@ != contents[t][i]->0@);
                    lemma_alone_by_bytes(entries, contents[t], i);
                    assert(files[i].entry@ == e);
                }
            }
        }
        t
    }
}

proof fn lemma_alone_by_bytes(
    entries: Seq<FileEntry>,
    contents: Seq<Option<&[u8]>>,
    i: int,
)
    requires
        0 <= i < entries.len(),
    ensures
        alone(loaded(entries, contents), i) <==> contents[i] is None || forall|j: int|
            0 <= j < entries.len() && j != i && (#[trigger] contents[j]) is Some
                ==> contents[j]->0@ != contents[i]->0@,
{
    let files = loaded(entries, contents);
    lemma_left_are_alone(files);
    assert(files[i].content == contents[i]);
    if contents[i] is Some {
        if alone(files, i) {
            assert forall|j: int|
                0 <= j < entries.len() && j != i && (
                #[trigger] contents[j]) is Some implies contents[j]->0@ != contents[i]->0@ by {
                assert(files[j].content is Some);
            }
        }
        if forall|j: int|
            0 <= j < entries.len() && j != i && (#[trigger] contents[j]) is Some
                ==> contents[j]->0@ != contents[i]->0@ {
            assert forall|j: int|
                0 <= j < files.len() && j != i && (
                #[trigger] files[j]).content is Some implies files[j].content->0@
                != files[i].content->0@ by {
                assert(contents[j] is Some);
            }
        }
    }
}

} // verus!
