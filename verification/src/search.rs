//! What the stages of a search come to when they are put together.

use crate::compare::{
    alone, by_path, lemma_left_are_alone, path_pairs, twin_groups, unmatched, LoadedFile,
    BYTE_CMP_THRESHOLD,
};
use crate::digest::Digest;
use crate::entry::{records, FileRecord};
use crate::filter::{lists_several, LinkTable, SizeGroup};
use crate::order::{grouped, lemma_stable_sort, shared, stable_sort};
use crate::path::{same_path, PathKey};
use crate::pipeline::{
    all_entries, full_pairs, hashed_as, jobs_of, lemma_identical_files_meet, linked_paths,
    partial_pairs, partial_views, PartialGroup, PartialKey,
};
use crate::resolve::{
    keyed_twins, lemma_compared_files_meet, lemma_compared_group_agrees, lemma_every_group_stays,
    loaded, settled, size_group_views,
};
use vstd::prelude::*;

verus! {

/// The groups of duplicates that were found by comparing bytes, and the files that
/// are left to be hashed, once the first `n` groups of files of one size have been
/// settled.
pub open spec fn resolved(
    links: LinkTable,
    groups: Seq<SizeGroup>,
    contents: Seq<Seq<Option<&[u8]>>>,
    n: int,
) -> (Seq<(Seq<u8>, Seq<Seq<u8>>)>, Seq<(u64, Seq<FileRecord>)>)
    decreases n,
{
    if n <= 0 {
        (Seq::empty(), Seq::empty())
    } else {
        settled(
            links,
            resolved(links, groups, contents, n - 1),
            groups[n - 1],
            contents[n - 1],
        )
    }
}

proof fn lemma_resolved_grows(
    links: LinkTable,
    groups: Seq<SizeGroup>,
    contents: Seq<Seq<Option<&[u8]>>>,
    m: int,
    n: int,
)
    requires
        0 <= m <= n,
    ensures
        forall|g: (Seq<u8>, Seq<Seq<u8>>)| #[trigger]
            resolved(links, groups, contents, m).0.contains(g) ==> resolved(
                links,
                groups,
                contents,
                n,
            ).0.contains(g),
        forall|g: (u64, Seq<FileRecord>)| #[trigger]
            resolved(links, groups, contents, m).1.contains(g) ==> resolved(
                links,
                groups,
                contents,
                n,
            ).1.contains(g),
    decreases n,
{
    if m < n {
        lemma_resolved_grows(links, groups, contents, m, n - 1);
        let before = resolved(links, groups, contents, n - 1);
        let after = resolved(links, groups, contents, n);
        assert forall|g: (Seq<u8>, Seq<Seq<u8>>)| #[trigger]
            before.0.contains(g) implies after.0.contains(g) by {
            let i = choose|i: int| 0 <= i < before.0.len() && before.0[i] == g;
            assert(after.0[i] == g);
        }
        assert forall|g: (u64, Seq<FileRecord>)| #[trigger]
            before.1.contains(g) implies after.1.contains(g) by {
            let i = choose|i: int| 0 <= i < before.1.len() && before.1[i] == g;
            assert(after.1[i] == g);
        }
    }
}

/// The groups that were found by comparing bytes have more than one path.
pub proof fn lemma_resolved_plural(
    links: LinkTable,
    groups: Seq<SizeGroup>,
    contents: Seq<Seq<Option<&[u8]>>>,
    n: int,
)
    requires
        lists_several(links),
    ensures
        forall|i: int|
            0 <= i < resolved(links, groups, contents, n).0.len() ==> (#[trigger] resolved(
                links,
                groups,
                contents,
                n,
            ).0[i]).1.len() > 1,
    decreases n,
{
    if n > 0 {
        lemma_resolved_plural(links, groups, contents, n - 1);
        let before = resolved(links, groups, contents, n - 1).0;
        let after = resolved(links, groups, contents, n).0;
        let files = loaded(groups[n - 1].entries@, contents[n - 1]);
        lemma_stable_sort::<PathKey, LoadedFile>(path_pairs(files));
        assert forall|i: int| 0 <= i < after.len() implies (#[trigger] after[i]).1.len() > 1 by {
            if i < before.len() {
                assert(after[i] == before[i]);
            } else {
                lemma_compared_group_agrees(files, links, i - before.len());
            }
        }
    }
}

proof fn lemma_entries_at(groups: Seq<SizeGroup>, c: int) -> (at: int)
    requires
        0 <= c < groups.len(),
    ensures
        0 <= at,
        at + groups[c].entries@.len() <= all_entries(groups).len(),
        forall|x: int|
            0 <= x < groups[c].entries@.len() ==> all_entries(groups)[at + x] == (
            #[trigger] groups[c].entries@[x]),
    decreases groups.len(),
{
    let front = groups.drop_last();
    if c == groups.len() - 1 {
        all_entries(front).len() as int
    } else {
        let at = lemma_entries_at(front, c);
        assert(front[c] == groups[c]);
        assert forall|x: int| 0 <= x < groups[c].entries@.len() implies all_entries(groups)[at + x]
            == (#[trigger] groups[c].entries@[x]) by {
            assert(all_entries(front)[at + x] == front[c].entries@[x]);
        }
        at
    }
}

/// The groups of duplicates that hashing the candidates came to.
pub open spec fn hash_groups(
    links: LinkTable,
    candidates: Seq<SizeGroup>,
    parts: Seq<PartialGroup>,
    fulls: Seq<Option<Digest>>,
) -> Seq<(Seq<u8>, Seq<Seq<u8>>)> {
    shared(
        grouped::<Digest, Seq<u8>>(
            full_pairs(
                all_entries(candidates),
                jobs_of(parts),
                fulls,
                links,
                fulls.len() as int,
            ),
        ),
    )
}

/// Whether the candidates were sampled and grouped, and the groups hashed in full.
pub open spec fn were_hashed(
    candidates: Seq<SizeGroup>,
    partials: Seq<Option<Digest>>,
    parts: Seq<PartialGroup>,
    fulls: Seq<Option<Digest>>,
) -> bool {
    let entries = all_entries(candidates);
    &&& entries.len() == partials.len() <= usize::MAX
    &&& partial_views(parts) == shared(
        grouped::<PartialKey, usize>(partial_pairs(entries, partials, entries.len() as int)),
    )
    &&& fulls.len() == jobs_of(parts).len()
}

/// Whether hashing the file, wherever it is among the candidates, gave the digests of
/// this content, and whatever has its path there has its size.
pub open spec fn hashed_with(
    candidates: Seq<SizeGroup>,
    partials: Seq<Option<Digest>>,
    parts: Seq<PartialGroup>,
    fulls: Seq<Option<Digest>>,
    file: FileRecord,
    content: Seq<u8>,
) -> bool {
    let entries = all_entries(candidates);
    &&& forall|m: int|
        #![trigger entries[m]]
        0 <= m < entries.len() && entries[m]@ == file ==> hashed_as(
            entries,
            partials,
            jobs_of(parts),
            fulls,
            m,
            content,
        )
    &&& forall|m: int|
        #![trigger entries[m]]
        0 <= m < entries.len() && same_path(entries[m].path@, file.path) ==> entries[m].size
            == file.size
}

/// Whether a group of paths holds those of two files, and of the hard links to them.
pub open spec fn holds_both(
    links: LinkTable,
    group: Seq<Seq<u8>>,
    a: FileRecord,
    b: FileRecord,
) -> bool {
    forall|path: Seq<u8>|
        linked_paths(links, a.path).contains(path) || linked_paths(links, b.path).contains(path)
            ==> #[trigger] group.contains(path)
}

proof fn lemma_left_are_found(
    links: LinkTable,
    candidates: Seq<SizeGroup>,
    partials: Seq<Option<Digest>>,
    parts: Seq<PartialGroup>,
    fulls: Seq<Option<Digest>>,
    c: int,
    p: int,
    q: int,
    content: Seq<u8>,
)
    requires
        lists_several(links),
        were_hashed(candidates, partials, parts, fulls),
        0 <= c < candidates.len(),
        0 <= p < candidates[c].entries@.len(),
        0 <= q < candidates[c].entries@.len(),
        p != q,
        candidates[c].entries@[p].size == candidates[c].entries@[q].size,
        hashed_with(candidates, partials, parts, fulls, candidates[c].entries@[p]@, content),
        hashed_with(candidates, partials, parts, fulls, candidates[c].entries@[q]@, content),
    ensures
        exists|group: (Seq<u8>, Seq<Seq<u8>>)| #[trigger]
            hash_groups(links, candidates, parts, fulls).contains(group) && holds_both(
                links,
                group.1,
                candidates[c].entries@[p]@,
                candidates[c].entries@[q]@,
            ),
{
    let entries = all_entries(candidates);
    let at = lemma_entries_at(candidates, c);
    let i = (at + p) as usize;
    let j = (at + q) as usize;
    assert(entries[i as int] == candidates[c].entries@[p]);
    assert(entries[j as int] == candidates[c].entries@[q]);
    lemma_identical_files_meet(entries, partials, parts, fulls, links, i, j, content);
    let hashed = hash_groups(links, candidates, parts, fulls);
    let group = choose|group: (Seq<u8>, Seq<Seq<u8>>)| #[trigger]
        hashed.contains(group) && (forall|path: Seq<u8>|
            linked_paths(links, entries[i as int].path@).contains(path) || linked_paths(
                links,
                entries[j as int].path@,
            ).contains(path) ==> #[trigger] group.1.contains(path));
    assert(hashed.contains(group));
    assert(holds_both(links, group.1, entries[i as int]@, entries[j as int]@));
}

/// Files with the same bytes are found, whatever becomes of the others. Take two files of
/// one size that hold the same bytes. Where they were compared, both could be read then,
/// or neither could; where they were hashed, that gave the digests of what they hold. Then
/// their paths, and those of the hard links to them, are in one of the groups that the
/// search comes to.
pub proof fn lemma_duplicates_found(
    links: LinkTable,
    groups: Seq<SizeGroup>,
    contents: Seq<Seq<Option<&[u8]>>>,
    candidates: Seq<SizeGroup>,
    partials: Seq<Option<Digest>>,
    parts: Seq<PartialGroup>,
    fulls: Seq<Option<Digest>>,
    g: int,
    a: int,
    b: int,
    content: Seq<u8>,
)
    requires
        lists_several(links),
        size_group_views(candidates) == resolved(links, groups, contents, groups.len() as int).1,
        were_hashed(candidates, partials, parts, fulls),
        0 <= g < groups.len(),
        0 <= a < b < groups[g].entries@.len(),
        groups[g].entries@[a]@ != groups[g].entries@[b]@,
        groups[g].entries@[a].size == groups[g].entries@[b].size,
        groups[g].entries@.len() <= BYTE_CMP_THRESHOLD ==> {
            ||| contents[g][a] is None && contents[g][b] is None
            ||| contents[g][a] is Some && contents[g][a]->0@ == content && contents[g][b] is Some
                && contents[g][b]->0@ == content
        },
        hashed_with(candidates, partials, parts, fulls, groups[g].entries@[a]@, content),
        hashed_with(candidates, partials, parts, fulls, groups[g].entries@[b]@, content),
    ensures
        exists|group: (Seq<u8>, Seq<Seq<u8>>)| #[trigger]
            stable_sort::<Digest, Seq<Seq<u8>>>(
                resolved(links, groups, contents, groups.len() as int).0 + hash_groups(
                    links,
                    candidates,
                    parts,
                    fulls,
                ),
            ).contains(group) && holds_both(
                links,
                group.1,
                groups[g].entries@[a]@,
                groups[g].entries@[b]@,
            ),
{
    let n = groups.len() as int;
    let whole = groups[g];
    let x = whole.entries@[a]@;
    let y = whole.entries@[b]@;
    let compared = resolved(links, groups, contents, n).0;
    let hashed = hash_groups(links, candidates, parts, fulls);
    let both = compared + hashed;
    lemma_every_group_stays(both);
    let ordered = stable_sort::<Digest, Seq<Seq<u8>>>(both);
    let files = loaded(whole.entries@, contents[g]);
    let sorted = by_path(files);
    lemma_resolved_grows(links, groups, contents, g + 1, n);
    lemma_stable_sort::<PathKey, LoadedFile>(path_pairs(files));
    assert(sorted.len() == files.len());
    let small = whole.entries@.len() <= BYTE_CMP_THRESHOLD;
    if small && contents[g][a] is Some {
        assert(files[a].content->0@ == files[b].content->0@);
        lemma_compared_files_meet(files, links, a, b);
        let found = keyed_twins(links, twin_groups(sorted, files.len() as int));
        let group = choose|group: (Seq<u8>, Seq<Seq<u8>>)| #[trigger]
            found.contains(group) && (forall|path: Seq<u8>|
                linked_paths(links, files[a].entry.path@).contains(path) || linked_paths(
                    links,
                    files[b].entry.path@,
                ).contains(path) ==> #[trigger] group.1.contains(path));
        let m = choose|m: int| 0 <= m < found.len() && found[m] == group;
        let before = resolved(links, groups, contents, g).0;
        let after = resolved(links, groups, contents, g + 1).0;
        assert(after == before + found);
        assert(after[before.len() + m] == group);
        assert(after.contains(group));
        assert(compared.contains(group));
        let i = choose|i: int| 0 <= i < compared.len() && compared[i] == group;
        assert(both[i] == group);
        assert(both.contains(group));
        assert(ordered.contains(group));
        assert(holds_both(links, group.1, x, y));
    } else {
        let kept = if small {
            unmatched(sorted, files.len() as int)
        } else {
            records(whole.entries@)
        };
        assert(kept.contains(x) && kept.contains(y)) by {
            if small {
                lemma_left_are_alone(files);
                assert(alone(files, a) && files[a].entry@ == x);
                assert(alone(files, b) && files[b].entry@ == y);
            } else {
                assert(kept[a] == x && kept[b] == y);
            }
        }
        let p = choose|p: int| 0 <= p < kept.len() && kept[p] == x;
        let q = choose|q: int| 0 <= q < kept.len() && kept[q] == y;
        let left = resolved(links, groups, contents, g + 1).1;
        let view = (whole.size, kept);
        assert(kept.len() > 1);
        assert(left[left.len() - 1] == view);
        assert(left.contains(view));
        let all = size_group_views(candidates);
        assert(all.contains(view));
        let c = choose|c: int| 0 <= c < all.len() && all[c] == view;
        let held = candidates[c].entries@;
        assert(records(held) == kept);
        assert(records(held)[p] == held[p]@ && records(held)[q] == held[q]@);
        lemma_left_are_found(links, candidates, partials, parts, fulls, c, p, q, content);
        let group = choose|group: (Seq<u8>, Seq<Seq<u8>>)| #[trigger]
            hashed.contains(group) && holds_both(links, group.1, held[p]@, held[q]@);
        let m = choose|m: int| 0 <= m < hashed.len() && hashed[m] == group;
        assert(both[compared.len() + m] == group);
        assert(both.contains(group));
        assert(ordered.contains(group));
        assert(holds_both(links, group.1, x, y));
    }
}

} // verus!
