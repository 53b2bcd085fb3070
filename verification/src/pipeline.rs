//! From files of one size to groups of files with one content: first by a digest
//! of samples, then by a digest of everything.

use crate::digest::{blake3_digest, samples, Digest};
use crate::entry::FileEntry;
use crate::filter::{lists_several, LinkTable, SizeGroup};
use crate::lex::bytes_le;
use crate::order::{
    grouped, keyed, keyed_groups, latest, lemma_grouped_map, lemma_last_counts, lemma_latest,
    lemma_shared_group,
    lemma_shared_values, lemma_values_at_add, lemma_values_at_contains, map_groups, map_pairs,
    shared, shared_by_key, values_at, SortKey, Table,
};
use crate::path::{components, path_views, same_path, Component, FilePath, PathKey};
use vstd::prelude::*;

verus! {

/// The files of the groups, one group after the other.
pub open spec fn all_entries(groups: Seq<SizeGroup>) -> Seq<FileEntry>
    decreases groups.len(),
{
    if groups.len() == 0 {
        Seq::empty()
    } else {
        all_entries(groups.drop_last()) + groups.last().entries@
    }
}

/// The files to sample: those of all groups.
pub fn hash_jobs(groups: Vec<SizeGroup>) -> (r: Vec<FileEntry>)
    ensures
        r@ == all_entries(groups@),
{
    let mut r: Vec<FileEntry> = Vec::new();
    assert(groups@.take(0) =~= Seq::empty());
    for group in it: groups
        invariant
            it.seq() == groups@,
            r@ == all_entries(groups@.take(it.index() as int)),
    {
        let ghost n = it.index() as int;
        proof {
            assert(groups@.take(n + 1).drop_last() =~= groups@.take(n));
            assert(groups@.take(n + 1).last() == group);
        }
        let mut entries = group.entries;
        r.append(&mut entries);
    }
    assert(groups@.take(groups@.len() as int) =~= groups@);
    r
}

/// The files as pairs of path and size.
pub open spec fn size_pairs(entries: Seq<FileEntry>) -> Seq<(Seq<Component>, u64)> {
    Seq::new(entries.len(), |i: int| (components(entries[i].path@), entries[i].size))
}

/// The size on record for the path of the file at `i`: that of the last file with
/// this path.
pub open spec fn recorded_size(entries: Seq<FileEntry>, i: int) -> u64 {
    match latest(size_pairs(entries), components(entries[i].path@)) {
        Some(size) => size,
        None => entries[i].size,
    }
}

/// What files are first told apart by: their size, then the digest of their
/// samples.
pub struct PartialKey {
    pub size: u64,
    pub digest: Digest,
}

impl SortKey for PartialKey {
    type Value = (u64, Seq<u8>);

    open spec fn value(&self) -> (u64, Seq<u8>) {
        (self.size, self.digest@)
    }

    open spec fn le(a: (u64, Seq<u8>), b: (u64, Seq<u8>)) -> bool {
        a.0 < b.0 || (a.0 == b.0 && bytes_le(a.1, b.1))
    }

    proof fn le_total(a: (u64, Seq<u8>), b: (u64, Seq<u8>)) {
        Digest::le_total(a.1, b.1);
    }

    proof fn le_transitive(a: (u64, Seq<u8>), b: (u64, Seq<u8>), c: (u64, Seq<u8>)) {
        if a.0 == b.0 && b.0 == c.0 {
            Digest::le_transitive(a.1, b.1, c.1);
        }
    }

    proof fn le_antisymmetric(a: (u64, Seq<u8>), b: (u64, Seq<u8>)) {
        Digest::le_antisymmetric(a.1, b.1);
    }

    fn at_most(&self, other: &Self) -> (r: bool) {
        self.size < other.size || (self.size == other.size && self.digest.at_most(&other.digest))
    }
}

/// The places of the first `n` files whose samples could be read, each with the
/// size on record and the digest of the samples.
pub open spec fn partial_pairs(
    entries: Seq<FileEntry>,
    partials: Seq<Option<Digest>>,
    n: int,
) -> Seq<((u64, Seq<u8>), usize)>
    decreases n,
{
    if n <= 0 {
        Seq::empty()
    } else {
        let front = partial_pairs(entries, partials, n - 1);
        match partials[n - 1] {
            Some(digest) => front.push(
                ((recorded_size(entries, n - 1), digest@), (n - 1) as usize),
            ),
            None => front,
        }
    }
}

/// Files of one size whose samples have one digest, by their places.
pub struct PartialGroup {
    pub size: u64,
    pub digest: Digest,
    pub members: Vec<usize>,
}

/// What groups by size and digest stand for.
pub open spec fn partial_views(s: Seq<PartialGroup>) -> Seq<((u64, Seq<u8>), Seq<usize>)> {
    Seq::new(s.len(), |i: int| ((s[i].size, s[i].digest@), s[i].members@))
}

/// Groups the files by size and by the digest of their samples, and keeps the
/// groups of more than one file.
pub fn partial_groups(entries: &Vec<FileEntry>, partials: &Vec<Option<Digest>>) -> (r: Vec<
    PartialGroup,
>)
    requires
        entries@.len() == partials@.len(),
    ensures
        partial_views(r@) == shared(
            grouped::<PartialKey, usize>(
                partial_pairs(entries@, partials@, entries@.len() as int),
            ),
        ),
{
    let mut sizes: Vec<(PathKey, u64)> = Vec::new();
    let mut i: usize = 0;
    while i < entries.len()
        invariant
            i <= entries@.len(),
            sizes@.len() == i,
            forall|j: int| 0 <= j < i ==> #[trigger] keyed(sizes@)[j] == size_pairs(entries@)[j],
        decreases entries@.len() - i,
    {
        let key = entries[i].path.key();
        let ghost before = keyed(sizes@);
        sizes.push((key, entries[i].size));
        assert(keyed(sizes@) =~= before.push((key.value(), entries@[i as int].size)));
        i = i + 1;
    }
    assert(keyed(sizes@) =~= size_pairs(entries@));
    let size_of = Table::from_pairs(sizes);
    let mut pairs: Vec<(PartialKey, usize)> = Vec::new();
    let mut i: usize = 0;
    assert(keyed(pairs@) =~= partial_pairs(entries@, partials@, 0));
    while i < entries.len()
        invariant
            i <= entries@.len(),
            entries@.len() == partials@.len(),
            forall|k: Seq<Component>| #[trigger]
                size_of.find(k) == latest(size_pairs(entries@), k),
            keyed(pairs@) == partial_pairs(entries@, partials@, i as int),
        decreases entries@.len() - i,
    {
        let ghost before = keyed(pairs@);
        if let Some(digest) = partials[i] {
            let size: u64 = match size_of.get(&entries[i].path.key()) {
                Some(size) => *size,
                None => entries[i].size,
            };
            assert(size == recorded_size(entries@, i as int));
            pairs.push((PartialKey { size, digest }, i));
            assert(keyed(pairs@) =~= before.push(((size, digest@), i)));
        }
        i = i + 1;
    }
    let groups = shared_by_key(pairs);
    let ghost kept = keyed_groups(groups@);
    let mut r: Vec<PartialGroup> = Vec::new();
    for group in it: groups
        invariant
            it.seq() == groups@,
            kept == keyed_groups(groups@),
            r@.len() == it.index(),
            forall|j: int| 0 <= j < r@.len() ==> #[trigger] partial_views(r@)[j] == kept[j],
    {
        let ghost n = it.index() as int;
        let ghost before = partial_views(r@);
        assert(kept[n] == (group.0.value(), group.1@));
        let (key, members) = group;
        r.push(PartialGroup { size: key.size, digest: key.digest, members });
        assert(partial_views(r@) =~= before.push(kept[n]));
    }
    assert(partial_views(r@) =~= kept);
    r
}

/// A file to hash in full: its place and its size.
pub struct FullJob {
    pub index: usize,
    pub size: u64,
}

/// The members of a group as files to hash.
pub open spec fn jobs_in(group: PartialGroup) -> Seq<FullJob> {
    Seq::new(
        group.members@.len(),
        |i: int| FullJob { index: group.members@[i], size: group.size },
    )
}

/// The members of all groups as files to hash, one group after the other.
pub open spec fn jobs_of(groups: Seq<PartialGroup>) -> Seq<FullJob>
    decreases groups.len(),
{
    if groups.len() == 0 {
        Seq::empty()
    } else {
        jobs_of(groups.drop_last()) + jobs_in(groups.last())
    }
}

/// The files to hash in full: the members of all groups.
pub fn full_jobs(groups: &Vec<PartialGroup>) -> (r: Vec<FullJob>)
    ensures
        r@ == jobs_of(groups@),
{
    let mut r: Vec<FullJob> = Vec::new();
    let mut i: usize = 0;
    assert(groups@.take(0) =~= Seq::empty());
    while i < groups.len()
        invariant
            i <= groups@.len(),
            r@ == jobs_of(groups@.take(i as int)),
        decreases groups@.len() - i,
    {
        let group = &groups[i];
        let ghost before = r@;
        proof {
            assert(groups@.take(i + 1).drop_last() =~= groups@.take(i as int));
            assert(groups@.take(i + 1).last() == group);
            assert(before + jobs_in(*group).take(0) =~= before);
        }
        let mut j: usize = 0;
        while j < group.members.len()
            invariant
                j <= group.members@.len(),
                r@ == before + jobs_in(*group).take(j as int),
            decreases group.members@.len() - j,
        {
            r.push(FullJob { index: group.members[j], size: group.size });
            assert(r@ =~= before + jobs_in(*group).take(j + 1));
            j = j + 1;
        }
        assert(jobs_in(*group).take(j as int) =~= jobs_in(*group));
        i = i + 1;
    }
    assert(groups@.take(i as int) =~= groups@);
    r
}

/// The paths that a path stands for: those of the hard links to its file where
/// several are known, else itself.
pub open spec fn linked_paths(links: LinkTable, path: Seq<u8>) -> Seq<Seq<u8>> {
    match links.find(components(path)) {
        Some(paths) => path_views(paths@),
        None => seq![path],
    }
}

/// Appends the paths that a path stands for.
pub fn push_linked_paths(to: &mut Vec<FilePath>, path: &FilePath, links: &LinkTable)
    ensures
        path_views(final(to)@) == path_views(old(to)@) + linked_paths(*links, path@),
{
    let ghost before = path_views(to@);
    match links.get(&path.key()) {
        Some(paths) => {
            let mut i: usize = 0;
            assert(before + path_views(paths@).take(0) =~= before);
            while i < paths.len()
                invariant
                    i <= paths@.len(),
                    path_views(to@) == before + path_views(paths@).take(i as int),
                decreases paths@.len() - i,
            {
                let ghost here = path_views(to@);
                to.push(paths[i].clone());
                proof {
                    assert(path_views(to@) =~= here.push(paths@[i as int]@));
                    assert(path_views(to@) =~= before + path_views(paths@).take(i + 1));
                }
                i = i + 1;
            }
            assert(path_views(paths@).take(i as int) =~= path_views(paths@));
        },
        None => {
            to.push(path.clone());
            assert(path_views(to@) =~= before + seq![path@]);
        },
    }
}

/// Paths that share a digest, as pairs.
pub open spec fn with_digest(digest: Seq<u8>, paths: Seq<Seq<u8>>) -> Seq<(Seq<u8>, Seq<u8>)> {
    Seq::new(paths.len(), |i: int| (digest, paths[i]))
}

/// The paths that the first `n` hashed files stand for, each with the digest of the
/// file; files that could not be hashed are left out.
pub open spec fn full_pairs(
    entries: Seq<FileEntry>,
    jobs: Seq<FullJob>,
    fulls: Seq<Option<Digest>>,
    links: LinkTable,
    n: int,
) -> Seq<(Seq<u8>, Seq<u8>)>
    decreases n,
{
    if n <= 0 {
        Seq::empty()
    } else {
        let front = full_pairs(entries, jobs, fulls, links, n - 1);
        match fulls[n - 1] {
            Some(digest) => front + with_digest(
                digest@,
                linked_paths(links, entries[jobs[n - 1].index as int].path@),
            ),
            None => front,
        }
    }
}

/// How many of the first `n` files could be hashed.
pub open spec fn hashed(fulls: Seq<Option<Digest>>, n: int) -> nat
    decreases n,
{
    if n <= 0 {
        0
    } else {
        hashed(fulls, n - 1) + if fulls[n - 1] is Some {
            1nat
        } else {
            0
        }
    }
}

/// What groups of paths under a digest stand for.
pub open spec fn digest_groups(s: Seq<(Digest, Vec<FilePath>)>) -> Seq<(Seq<u8>, Seq<Seq<u8>>)> {
    Seq::new(s.len(), |i: int| (s[i].0@, path_views(s[i].1@)))
}

/// The path that a path value stands for, as a function.
pub open spec fn path_bytes() -> spec_fn(FilePath) -> Seq<u8> {
    |p: FilePath| p@
}

/// Groups the paths of the hashed files by the digest of their content, and keeps
/// the groups of more than one path; and counts the hashed files.
pub fn full_groups(
    entries: &Vec<FileEntry>,
    jobs: &Vec<FullJob>,
    fulls: &Vec<Option<Digest>>,
    links: &LinkTable,
) -> (r: (Vec<(Digest, Vec<FilePath>)>, u64))
    requires
        jobs@.len() == fulls@.len(),
        forall|i: int| 0 <= i < jobs@.len() ==> (#[trigger] jobs@[i]).index < entries@.len(),
    ensures
        digest_groups(r.0@) == shared(
            grouped::<Digest, Seq<u8>>(
                full_pairs(entries@, jobs@, fulls@, *links, jobs@.len() as int),
            ),
        ),
        r.1 == hashed(fulls@, jobs@.len() as int),
{
    let f = Ghost(path_bytes());
    let mut pairs: Vec<(Digest, FilePath)> = Vec::new();
    let mut count: u64 = 0;
    let mut i: usize = 0;
    assert(map_pairs(keyed(pairs@), f@) =~= full_pairs(entries@, jobs@, fulls@, *links, 0));
    while i < jobs.len()
        invariant
            i <= jobs@.len(),
            jobs@.len() == fulls@.len(),
            forall|i: int| 0 <= i < jobs@.len() ==> (#[trigger] jobs@[i]).index < entries@.len(),
            f@ == path_bytes(),
            map_pairs(keyed(pairs@), f@) == full_pairs(entries@, jobs@, fulls@, *links, i as int),
            count == hashed(fulls@, i as int),
            count <= i,
        decreases jobs@.len() - i,
    {
        if let Some(digest) = fulls[i] {
            let path = &entries[jobs[i].index].path;
            let mut siblings: Vec<FilePath> = Vec::new();
            push_linked_paths(&mut siblings, path, links);
            let ghost paths = linked_paths(*links, path@);
            let ghost before = map_pairs(keyed(pairs@), f@);
            proof {
                assert(path_views(siblings@) =~= paths);
                assert(before + with_digest(digest@, paths).take(0) =~= before);
            }
            for sibling in it: siblings
                invariant
                    it.seq() == siblings@,
                    f@ == path_bytes(),
                    path_views(siblings@) == paths,
                    map_pairs(keyed(pairs@), f@) == before + with_digest(digest@, paths).take(
                        it.index() as int,
                    ),
            {
                let ghost n = it.index() as int;
                let ghost here = map_pairs(keyed(pairs@), f@);
                assert(paths[n] == sibling@);
                pairs.push((digest, sibling));
                proof {
                    assert(map_pairs(keyed(pairs@), f@) =~= here.push((digest@, sibling@)));
                    assert(map_pairs(keyed(pairs@), f@) =~= before + with_digest(
                        digest@,
                        paths,
                    ).take(n + 1));
                }
            }
            assert(with_digest(digest@, paths).take(paths.len() as int) =~= with_digest(
                digest@,
                paths,
            ));
            count = count + 1;
        }
        i = i + 1;
    }
    let ghost given = keyed(pairs@);
    let groups = shared_by_key(pairs);
    proof {
        lemma_grouped_map::<Digest, FilePath, Seq<u8>>(given, f@);
        assert(digest_groups(groups@) =~= map_groups(keyed_groups(groups@), f@)) by {
            assert forall|i: int| 0 <= i < groups@.len() implies path_views(
                (#[trigger] groups@[i]).1@,
            ) == groups@[i].1@.map_values(f@) by {
                assert(path_views(groups@[i].1@) =~= groups@[i].1@.map_values(f@));
            }
        }
    }
    (groups, count)
}

proof fn lemma_partial_pairs(entries: Seq<FileEntry>, partials: Seq<Option<Digest>>, n: int)
    requires
        0 <= n <= entries.len() == partials.len(),
        entries.len() <= usize::MAX,
    ensures
        forall|k: (u64, Seq<u8>), m: usize| #[trigger]
            partial_pairs(entries, partials, n).contains((k, m)) <==> {
                &&& m < n
                &&& partials[m as int] is Some
                &&& k == (recorded_size(entries, m as int), partials[m as int]->0@)
            },
    decreases n,
{
    let all = partial_pairs(entries, partials, n);
    if n > 0 {
        let front = partial_pairs(entries, partials, n - 1);
        lemma_partial_pairs(entries, partials, n - 1);
        assert forall|k: (u64, Seq<u8>), m: usize| #[trigger] all.contains((k, m)) <==> {
            &&& m < n
            &&& partials[m as int] is Some
            &&& k == (recorded_size(entries, m as int), partials[m as int]->0@)
        } by {
            let x = (k, m);
            if all.contains(x) {
                let i = choose|i: int| 0 <= i < all.len() && all[i] == x;
                if i < front.len() {
                    assert(front[i] == x);
                    assert(front.contains(x));
                }
            }
            if m < n && partials[m as int] is Some && k == (
                recorded_size(entries, m as int),
                partials[m as int]->0@,
            ) {
                if m < n - 1 {
                    assert(front.contains(x));
                    let i = choose|i: int| 0 <= i < front.len() && front[i] == x;
                    assert(all[i] == x);
                } else {
                    assert(all[all.len() - 1] == x);
                }
            }
        }
    }
}

/// Two files of one size whose samples have one digest end up in one group.
pub proof fn lemma_same_samples_meet(
    entries: Seq<FileEntry>,
    partials: Seq<Option<Digest>>,
    i: usize,
    j: usize,
)
    requires
        entries.len() == partials.len() <= usize::MAX,
        i < j < entries.len(),
        partials[i as int] is Some,
        partials[j as int] is Some,
        partials[i as int]->0@ == partials[j as int]->0@,
        recorded_size(entries, i as int) == recorded_size(entries, j as int),
    ensures
        exists|group: ((u64, Seq<u8>), Seq<usize>)| #[trigger]
            shared(
                grouped::<PartialKey, usize>(
                    partial_pairs(entries, partials, entries.len() as int),
                ),
            ).contains(group) && group.1.contains(i) && group.1.contains(j),
{
    let n = entries.len() as int;
    let pairs = partial_pairs(entries, partials, n);
    let k = (recorded_size(entries, i as int), partials[i as int]->0@);
    lemma_partial_pairs(entries, partials, n);
    assert(pairs.contains((k, i)));
    assert(pairs.contains((k, j)));
    lemma_values_at_contains(pairs, k);
    let members = values_at(pairs, k);
    assert(members.contains(i) && members.contains(j));
    let a = choose|a: int| 0 <= a < members.len() && members[a] == i;
    let b = choose|b: int| 0 <= b < members.len() && members[b] == j;
    assert(a != b);
    lemma_shared_group::<PartialKey, usize>(pairs, k);
    assert(shared(grouped::<PartialKey, usize>(pairs)).contains((k, members)));
}

/// The files of a group have its size, and their samples have its digest; a group
/// has more than one.
pub proof fn lemma_samples_agree(
    entries: Seq<FileEntry>,
    partials: Seq<Option<Digest>>,
    group: ((u64, Seq<u8>), Seq<usize>),
)
    requires
        entries.len() == partials.len() <= usize::MAX,
        shared(
            grouped::<PartialKey, usize>(partial_pairs(entries, partials, entries.len() as int)),
        ).contains(group),
    ensures
        group.1.len() > 1,
        forall|m: usize| #[trigger]
            group.1.contains(m) ==> {
                &&& m < entries.len()
                &&& partials[m as int] is Some
                &&& partials[m as int]->0@ == group.0.1
                &&& recorded_size(entries, m as int) == group.0.0
            },
{
    let n = entries.len() as int;
    let pairs = partial_pairs(entries, partials, n);
    lemma_partial_pairs(entries, partials, n);
    lemma_shared_values::<PartialKey, usize>(pairs, group);
    lemma_values_at_contains(pairs, group.0);
    assert forall|m: usize| #[trigger] group.1.contains(m) implies {
        &&& m < entries.len()
        &&& partials[m as int] is Some
        &&& partials[m as int]->0@ == group.0.1
        &&& recorded_size(entries, m as int) == group.0.0
    } by {
        assert(pairs.contains((group.0, m)));
    }
}

proof fn lemma_jobs_of(groups: Seq<PartialGroup>)
    ensures
        forall|job: FullJob| #[trigger]
            jobs_of(groups).contains(job) <==> exists|g: int|
                0 <= g < groups.len() && (#[trigger] groups[g]).members@.contains(job.index)
                    && groups[g].size == job.size,
    decreases groups.len(),
{
    if groups.len() > 0 {
        let front = groups.drop_last();
        let last = groups.len() - 1;
        let all = jobs_of(groups);
        let one = jobs_in(groups.last());
        lemma_jobs_of(front);
        assert forall|job: FullJob| #[trigger] all.contains(job) <==> exists|g: int|
            0 <= g < groups.len() && (#[trigger] groups[g]).members@.contains(job.index)
                && groups[g].size == job.size by {
            if all.contains(job) {
                let i = choose|i: int| 0 <= i < all.len() && all[i] == job;
                if i < jobs_of(front).len() {
                    assert(jobs_of(front)[i] == job);
                    assert(jobs_of(front).contains(job));
                    let g = choose|g: int|
                        0 <= g < front.len() && (#[trigger] front[g]).members@.contains(job.index)
                            && front[g].size == job.size;
                    assert(groups[g].members@.contains(job.index));
                } else {
                    let m = i - jobs_of(front).len();
                    assert(one[m] == job);
                    assert(groups[last].members@[m] == job.index);
                    assert(groups[last].members@.contains(job.index));
                }
            }
            if exists|g: int|
                0 <= g < groups.len() && (#[trigger] groups[g]).members@.contains(job.index)
                    && groups[g].size == job.size {
                let g = choose|g: int|
                    0 <= g < groups.len() && (#[trigger] groups[g]).members@.contains(job.index)
                        && groups[g].size == job.size;
                if g < last {
                    assert(front[g].members@.contains(job.index));
                    assert(jobs_of(front).contains(job));
                    let i = choose|i: int|
                        0 <= i < jobs_of(front).len() && jobs_of(front)[i] == job;
                    assert(all[i] == job);
                } else {
                    let m = choose|m: int|
                        0 <= m < groups[last].members@.len() && groups[last].members@[m]
                            == job.index;
                    assert(one[m] == job);
                    assert(all[jobs_of(front).len() + m] == job);
                }
            }
        }
    }
}

/// The files to hash in full are among those that were sampled.
pub proof fn lemma_jobs_in_range(
    entries: Seq<FileEntry>,
    partials: Seq<Option<Digest>>,
    groups: Seq<PartialGroup>,
)
    requires
        entries.len() == partials.len() <= usize::MAX,
        partial_views(groups) == shared(
            grouped::<PartialKey, usize>(partial_pairs(entries, partials, entries.len() as int)),
        ),
    ensures
        forall|a: int|
            0 <= a < jobs_of(groups).len() ==> (#[trigger] jobs_of(groups)[a]).index
                < entries.len(),
{
    let jobs = jobs_of(groups);
    let views = partial_views(groups);
    lemma_jobs_of(groups);
    assert forall|a: int| 0 <= a < jobs.len() implies (#[trigger] jobs[a]).index
        < entries.len() by {
        assert(jobs.contains(jobs[a]));
        let g = choose|g: int|
            0 <= g < groups.len() && (#[trigger] groups[g]).members@.contains(jobs[a].index)
                && groups[g].size == jobs[a].size;
        assert(views.contains(views[g]));
        lemma_samples_agree(entries, partials, views[g]);
        assert(views[g].1.contains(jobs[a].index));
    }
}

proof fn lemma_with_digest(digest: Seq<u8>, paths: Seq<Seq<u8>>, k: Seq<u8>)
    ensures
        values_at(with_digest(digest, paths), k) == if k == digest {
            paths
        } else {
            Seq::empty()
        },
    decreases paths.len(),
{
    let pairs = with_digest(digest, paths);
    if paths.len() > 0 {
        assert(pairs.drop_last() =~= with_digest(digest, paths.drop_last()));
        lemma_with_digest(digest, paths.drop_last(), k);
        assert(paths =~= paths.drop_last().push(paths.last()));
    } else {
        assert(values_at(pairs, k) =~= Seq::empty());
        assert(paths =~= Seq::empty());
    }
}

/// The path of the file of a job.
pub open spec fn job_path(entries: Seq<FileEntry>, job: FullJob) -> Seq<u8> {
    entries[job.index as int].path@
}

proof fn lemma_linked_paths(links: LinkTable, path: Seq<u8>)
    requires
        lists_several(links),
    ensures
        linked_paths(links, path).len() > 0,
{
    assert(links.find(components(path)) matches Some(paths) ==> paths@.len() > 1);
}

proof fn lemma_full_values(
    entries: Seq<FileEntry>,
    jobs: Seq<FullJob>,
    fulls: Seq<Option<Digest>>,
    links: LinkTable,
    n: int,
    k: Seq<u8>,
)
    requires
        0 <= n <= jobs.len() == fulls.len(),
        lists_several(links),
    ensures
        forall|path: Seq<u8>| #[trigger]
            values_at(full_pairs(entries, jobs, fulls, links, n), k).contains(path)
                <==> exists|a: int|
                0 <= a < n && (#[trigger] fulls[a]) is Some && fulls[a]->0@ == k && linked_paths(
                    links,
                    job_path(entries, jobs[a]),
                ).contains(path),
        forall|a: int|
            0 <= a < n && (#[trigger] fulls[a]) is Some && fulls[a]->0@ == k ==> values_at(
                full_pairs(entries, jobs, fulls, links, n),
                k,
            ).len() > 0,
        forall|a: int, b: int|
            #![trigger fulls[a], fulls[b]]
            0 <= a < b < n && fulls[a] is Some && fulls[a]->0@ == k && fulls[b] is Some
                && fulls[b]->0@ == k ==> values_at(
                full_pairs(entries, jobs, fulls, links, n),
                k,
            ).len() > 1,
    decreases n,
{
    if n > 0 {
        let front = full_pairs(entries, jobs, fulls, links, n - 1);
        let v0 = values_at(front, k);
        let v = values_at(full_pairs(entries, jobs, fulls, links, n), k);
        let paths = linked_paths(links, job_path(entries, jobs[n - 1]));
        lemma_full_values(entries, jobs, fulls, links, n - 1, k);
        lemma_linked_paths(links, job_path(entries, jobs[n - 1]));
        let hit = fulls[n - 1] is Some && fulls[n - 1]->0@ == k;
        if let Some(digest) = fulls[n - 1] {
            lemma_values_at_add(front, with_digest(digest@, paths), k);
            lemma_with_digest(digest@, paths, k);
        }
        assert(v =~= if hit {
            v0 + paths
        } else {
            v0
        });
        assert forall|path: Seq<u8>| #[trigger] v.contains(path) <==> exists|a: int|
            0 <= a < n && (#[trigger] fulls[a]) is Some && fulls[a]->0@ == k && linked_paths(
                links,
                job_path(entries, jobs[a]),
            ).contains(path) by {
            if v.contains(path) {
                let i = choose|i: int| 0 <= i < v.len() && v[i] == path;
                if i < v0.len() {
                    assert(v0[i] == path);
                    assert(v0.contains(path));
                    let a = choose|a: int|
                        0 <= a < n - 1 && (#[trigger] fulls[a]) is Some && fulls[a]->0@ == k
                            && linked_paths(links, job_path(entries, jobs[a])).contains(path);
                    assert(fulls[a] is Some);
                } else {
                    assert(paths[i - v0.len()] == path);
                    assert(paths.contains(path));
                    assert(fulls[n - 1] is Some);
                }
            }
            if exists|a: int|
                0 <= a < n && (#[trigger] fulls[a]) is Some && fulls[a]->0@ == k && linked_paths(
                    links,
                    job_path(entries, jobs[a]),
                ).contains(path) {
                let a = choose|a: int|
                    0 <= a < n && (#[trigger] fulls[a]) is Some && fulls[a]->0@ == k
                        && linked_paths(links, job_path(entries, jobs[a])).contains(path);
                if a < n - 1 {
                    assert(v0.contains(path));
                    let i = choose|i: int| 0 <= i < v0.len() && v0[i] == path;
                    assert(v[i] == path);
                } else {
                    let i = choose|i: int| 0 <= i < paths.len() && paths[i] == path;
                    assert(v[v0.len() + i] == path);
                }
            }
        }
    }
}

/// The paths of two files whose contents have one digest, and of the hard links to
/// them, end up in one group under this digest.
pub proof fn lemma_same_digests_meet(
    entries: Seq<FileEntry>,
    jobs: Seq<FullJob>,
    fulls: Seq<Option<Digest>>,
    links: LinkTable,
    a: int,
    b: int,
)
    requires
        jobs.len() == fulls.len(),
        0 <= a < jobs.len(),
        0 <= b < jobs.len(),
        a != b,
        fulls[a] is Some,
        fulls[b] is Some,
        fulls[a]->0@ == fulls[b]->0@,
        lists_several(links),
    ensures
        exists|group: (Seq<u8>, Seq<Seq<u8>>)| #[trigger]
            shared(
                grouped::<Digest, Seq<u8>>(
                    full_pairs(entries, jobs, fulls, links, jobs.len() as int),
                ),
            ).contains(group) && group.0 == fulls[a]->0@ && (forall|path: Seq<u8>|
                linked_paths(links, job_path(entries, jobs[a])).contains(path) || linked_paths(
                    links,
                    job_path(entries, jobs[b]),
                ).contains(path) ==> #[trigger] group.1.contains(path)),
{
    let n = jobs.len() as int;
    let pairs = full_pairs(entries, jobs, fulls, links, n);
    let k = fulls[a]->0@;
    lemma_full_values(entries, jobs, fulls, links, n, k);
    let paths = values_at(pairs, k);
    assert(paths.len() > 1) by {
        if a < b {
            assert(fulls[a] is Some && fulls[b] is Some);
        } else {
            assert(fulls[b] is Some && fulls[a] is Some);
        }
    }
    lemma_shared_group::<Digest, Seq<u8>>(pairs, k);
    assert forall|path: Seq<u8>|
        linked_paths(links, job_path(entries, jobs[a])).contains(path) || linked_paths(
            links,
            job_path(entries, jobs[b]),
        ).contains(path) implies #[trigger] paths.contains(path) by {
        if linked_paths(links, job_path(entries, jobs[a])).contains(path) {
            assert(fulls[a] is Some);
        } else {
            assert(fulls[b] is Some);
        }
    }
    assert(shared(grouped::<Digest, Seq<u8>>(pairs)).contains((k, paths)));
}

/// The paths of a group are those of files whose contents have its digest, and of
/// the hard links to them; a group has more than one.
pub proof fn lemma_digests_agree(
    entries: Seq<FileEntry>,
    jobs: Seq<FullJob>,
    fulls: Seq<Option<Digest>>,
    links: LinkTable,
    group: (Seq<u8>, Seq<Seq<u8>>),
)
    requires
        jobs.len() == fulls.len(),
        lists_several(links),
        shared(
            grouped::<Digest, Seq<u8>>(full_pairs(entries, jobs, fulls, links, jobs.len() as int)),
        ).contains(group),
    ensures
        group.1.len() > 1,
        forall|path: Seq<u8>| #[trigger]
            group.1.contains(path) <==> exists|a: int|
                0 <= a < jobs.len() && (#[trigger] fulls[a]) is Some && fulls[a]->0@ == group.0
                    && linked_paths(links, job_path(entries, jobs[a])).contains(path),
{
    let n = jobs.len() as int;
    let pairs = full_pairs(entries, jobs, fulls, links, n);
    lemma_shared_values::<Digest, Seq<u8>>(pairs, group);
    lemma_full_values(entries, jobs, fulls, links, n, group.0);
}

proof fn lemma_recorded_size(entries: Seq<FileEntry>, i: int)
    requires
        0 <= i < entries.len(),
        forall|m: int|
            0 <= m < entries.len() && same_path((#[trigger] entries[m]).path@, entries[i].path@)
                ==> entries[m].size == entries[i].size,
    ensures
        recorded_size(entries, i) == entries[i].size,
{
    let pairs = size_pairs(entries);
    let k = components(entries[i].path@);
    lemma_latest(pairs, k);
    assert(pairs[i].0 == k);
    if let Some(size) = latest(pairs, k) {
        let j = choose|j: int| 0 <= j < pairs.len() && pairs[j] == (k, size);
        assert(same_path(entries[j].path@, entries[i].path@));
    }
}

/// Whether hashing the file at `i` gave the digests of this content, of its samples and,
/// where it was hashed in full, of all of it.
pub open spec fn hashed_as(
    entries: Seq<FileEntry>,
    partials: Seq<Option<Digest>>,
    jobs: Seq<FullJob>,
    fulls: Seq<Option<Digest>>,
    i: int,
    content: Seq<u8>,
) -> bool {
    &&& partials[i] is Some
    &&& partials[i]->0@ == blake3_digest(samples(content))
    &&& forall|a: int|
        0 <= a < jobs.len() && (#[trigger] jobs[a]).index == i ==> fulls[a] is Some
            && fulls[a]->0@ == blake3_digest(content)
}

/// Two files of one size that hold the same bytes are found, whatever becomes of the
/// others: they end up in one group, with the hard links to them. Files with the path of
/// one of them must have its size too.
pub proof fn lemma_identical_files_meet(
    entries: Seq<FileEntry>,
    partials: Seq<Option<Digest>>,
    groups: Seq<PartialGroup>,
    fulls: Seq<Option<Digest>>,
    links: LinkTable,
    i: usize,
    j: usize,
    content: Seq<u8>,
)
    requires
        entries.len() == partials.len() <= usize::MAX,
        i < entries.len(),
        j < entries.len(),
        i != j,
        entries[i as int].size == entries[j as int].size,
        forall|m: int|
            0 <= m < entries.len() && (same_path(
                (#[trigger] entries[m]).path@,
                entries[i as int].path@,
            ) || same_path(entries[m].path@, entries[j as int].path@)) ==> entries[m].size
                == entries[i as int].size,
        partial_views(groups) == shared(
            grouped::<PartialKey, usize>(partial_pairs(entries, partials, entries.len() as int)),
        ),
        fulls.len() == jobs_of(groups).len(),
        hashed_as(entries, partials, jobs_of(groups), fulls, i as int, content),
        hashed_as(entries, partials, jobs_of(groups), fulls, j as int, content),
        lists_several(links),
    ensures
        exists|group: (Seq<u8>, Seq<Seq<u8>>)| #[trigger]
            shared(
                grouped::<Digest, Seq<u8>>(
                    full_pairs(entries, jobs_of(groups), fulls, links, fulls.len() as int),
                ),
            ).contains(group) && (forall|path: Seq<u8>|
                linked_paths(links, entries[i as int].path@).contains(path) || linked_paths(
                    links,
                    entries[j as int].path@,
                ).contains(path) ==> #[trigger] group.1.contains(path)),
{
    let jobs = jobs_of(groups);
    lemma_recorded_size(entries, i as int);
    lemma_recorded_size(entries, j as int);
    if i < j {
        lemma_same_samples_meet(entries, partials, i, j);
    } else {
        lemma_same_samples_meet(entries, partials, j, i);
    }
    let found = shared(
        grouped::<PartialKey, usize>(partial_pairs(entries, partials, entries.len() as int)),
    );
    let group = choose|group: ((u64, Seq<u8>), Seq<usize>)| #[trigger]
        found.contains(group) && group.1.contains(i) && group.1.contains(j);
    let g = choose|g: int| 0 <= g < found.len() && found[g] == group;
    assert(partial_views(groups)[g] == group);
    let x = FullJob { index: i, size: groups[g].size };
    let y = FullJob { index: j, size: groups[g].size };
    lemma_jobs_of(groups);
    assert(groups[g].members@.contains(x.index));
    assert(groups[g].members@.contains(y.index));
    assert(jobs.contains(x) && jobs.contains(y));
    let a = choose|a: int| 0 <= a < jobs.len() && jobs[a] == x;
    let b = choose|b: int| 0 <= b < jobs.len() && jobs[b] == y;
    lemma_same_digests_meet(entries, jobs, fulls, links, a, b);
    let final_groups = shared(
        grouped::<Digest, Seq<u8>>(full_pairs(entries, jobs, fulls, links, jobs.len() as int)),
    );
    let r = choose|r: (Seq<u8>, Seq<Seq<u8>>)| #[trigger]
        final_groups.contains(r) && r.0 == fulls[a]->0@ && (forall|path: Seq<u8>|
            linked_paths(links, job_path(entries, jobs[a])).contains(path) || linked_paths(
                links,
                job_path(entries, jobs[b]),
            ).contains(path) ==> #[trigger] r.1.contains(path));
    assert(final_groups.contains(r));
}

/// The paths of a group that was found by hashing are those of files with the same bytes,
/// and of the hard links to them, unless two different contents among those that were
/// hashed have one digest.
pub proof fn lemma_hashed_groups_are_identical(
    entries: Seq<FileEntry>,
    contents: Seq<Seq<u8>>,
    jobs: Seq<FullJob>,
    fulls: Seq<Option<Digest>>,
    links: LinkTable,
    group: (Seq<u8>, Seq<Seq<u8>>),
)
    requires
        jobs.len() == fulls.len() == contents.len(),
        lists_several(links),
        forall|a: int|
            0 <= a < fulls.len() && (#[trigger] fulls[a]) is Some ==> fulls[a]->0@
                == blake3_digest(contents[a]),
        forall|a: int, b: int|
            #![trigger contents[a], contents[b]]
            0 <= a < b < contents.len() && blake3_digest(contents[a]) == blake3_digest(contents[b])
                ==> contents[a] == contents[b],
        shared(
            grouped::<Digest, Seq<u8>>(full_pairs(entries, jobs, fulls, links, jobs.len() as int)),
        ).contains(group),
    ensures
        group.1.len() > 1,
        exists|content: Seq<u8>|
            group.0 == #[trigger] blake3_digest(content) && forall|path: Seq<u8>| #[trigger]
                group.1.contains(path) ==> exists|a: int|
                    0 <= a < jobs.len() && #[trigger] contents[a] == content && linked_paths(
                        links,
                        job_path(entries, jobs[a]),
                    ).contains(path),
{
    lemma_digests_agree(entries, jobs, fulls, links, group);
    assert(group.1.contains(group.1[0]));
    let first = choose|a: int|
        0 <= a < jobs.len() && (#[trigger] fulls[a]) is Some && fulls[a]->0@ == group.0
            && linked_paths(links, job_path(entries, jobs[a])).contains(group.1[0]);
    let content = contents[first];
    assert forall|path: Seq<u8>| #[trigger] group.1.contains(path) implies exists|a: int|
        0 <= a < jobs.len() && #[trigger] contents[a] == content && linked_paths(
            links,
            job_path(entries, jobs[a]),
        ).contains(path) by {
        let a = choose|a: int|
            0 <= a < jobs.len() && (#[trigger] fulls[a]) is Some && fulls[a]->0@ == group.0
                && linked_paths(links, job_path(entries, jobs[a])).contains(path);
        if a < first {
            assert(contents[a] == contents[first]);
        } else if first < a {
            assert(contents[first] == contents[a]);
        }
        assert(contents[a] == content);
    }
    assert(group.0 == blake3_digest(content));
}

/// The files to sample are those of the groups, one group after the other.
pub proof fn lemma_entries_follow(groups: Seq<SizeGroup>)
    ensures
        all_entries(groups) == groups.map_values(|g: SizeGroup| g.entries@).flatten(),
    decreases groups.len(),
{
    let f = |g: SizeGroup| g.entries@;
    if groups.len() > 0 {
        let front = groups.drop_last();
        lemma_entries_follow(front);
        assert(groups.map_values(f) =~= front.map_values(f).push(groups.last().entries@));
        front.map_values(f).lemma_flatten_push(groups.last().entries@);
    } else {
        assert(groups.map_values(f).flatten() =~= Seq::empty());
    }
}

proof fn lemma_places_increase(
    entries: Seq<FileEntry>,
    partials: Seq<Option<Digest>>,
    n: int,
    k: (u64, Seq<u8>),
)
    requires
        0 <= n <= entries.len() == partials.len() <= usize::MAX,
    ensures
        forall|p: int|
            0 <= p < values_at(partial_pairs(entries, partials, n), k).len() ==> #[trigger] values_at(
                partial_pairs(entries, partials, n),
                k,
            )[p] < n,
        forall|p: int, q: int|
            #![trigger values_at(partial_pairs(entries, partials, n), k)[p], values_at(
                partial_pairs(entries, partials, n),
                k,
            )[q]]
            0 <= p < q < values_at(partial_pairs(entries, partials, n), k).len() ==> values_at(
                partial_pairs(entries, partials, n),
                k,
            )[p] < values_at(partial_pairs(entries, partials, n), k)[q],
    decreases n,
{
    if n > 0 {
        lemma_places_increase(entries, partials, n - 1, k);
        let front = values_at(partial_pairs(entries, partials, n - 1), k);
        let all = values_at(partial_pairs(entries, partials, n), k);
        let pairs = partial_pairs(entries, partials, n);
        if partials[n - 1] is Some {
            assert(pairs.drop_last() =~= partial_pairs(entries, partials, n - 1));
        }
        assert forall|p: int| 0 <= p < all.len() implies #[trigger] all[p] < n by {
            if p < front.len() {
                assert(front[p] == all[p]);
            }
        }
        assert forall|p: int, q: int|
            #![trigger all[p], all[q]]
            0 <= p < q < all.len() implies all[p] < all[q] by {
            assert(front[p] == all[p]);
            if q < front.len() {
                assert(front[q] == all[q]);
            }
        }
    }
}

/// The files that are sampled alike: where no path stands for two sizes, a group holds,
/// in their order, exactly the files of its size whose samples were read and have its
/// digest, each once, and they are more than one.
pub proof fn lemma_sampled_alike(
    entries: Seq<FileEntry>,
    partials: Seq<Option<Digest>>,
    group: ((u64, Seq<u8>), Seq<usize>),
)
    requires
        entries.len() == partials.len() <= usize::MAX,
        forall|i: int, j: int|
            #![trigger entries[i], entries[j]]
            0 <= i < j < entries.len() && components(entries[i].path@) == components(
                entries[j].path@,
            ) ==> entries[i].size == entries[j].size,
        shared(
            grouped::<PartialKey, usize>(partial_pairs(entries, partials, entries.len() as int)),
        ).contains(group),
    ensures
        group.1.len() > 1,
        forall|p: int, q: int|
            #![trigger group.1[p], group.1[q]]
            0 <= p < q < group.1.len() ==> group.1[p] < group.1[q],
        forall|m: usize| #[trigger]
            group.1.contains(m) <==> m < entries.len() && partials[m as int] is Some
                && partials[m as int]->0@ == group.0.1 && entries[m as int].size == group.0.0,
{
    let n = entries.len() as int;
    let pairs = partial_pairs(entries, partials, n);
    lemma_partial_pairs(entries, partials, n);
    lemma_shared_values::<PartialKey, usize>(pairs, group);
    lemma_values_at_contains(pairs, group.0);
    lemma_places_increase(entries, partials, n, group.0);
    assert forall|m: usize| #[trigger] group.1.contains(m) <==> m < entries.len()
        && partials[m as int] is Some && partials[m as int]->0@ == group.0.1
        && entries[m as int].size == group.0.0 by {
        assert(group.1.contains(m) <==> pairs.contains((group.0, m)));
        if m < entries.len() {
            lemma_one_size(entries, m as int);
        }
    }
}

proof fn lemma_one_size(entries: Seq<FileEntry>, m: int)
    requires
        0 <= m < entries.len(),
        forall|i: int, j: int|
            #![trigger entries[i], entries[j]]
            0 <= i < j < entries.len() && components(entries[i].path@) == components(
                entries[j].path@,
            ) ==> entries[i].size == entries[j].size,
    ensures
        recorded_size(entries, m) == entries[m].size,
{
    assert forall|j: int|
        0 <= j < entries.len() && same_path(
            (#[trigger] entries[j]).path@,
            entries[m].path@,
        ) implies entries[j].size == entries[m].size by {
        if j < m {
            assert(entries[j].size == entries[m].size);
        } else if m < j {
            assert(entries[m].size == entries[j].size);
        }
    }
    lemma_recorded_size(entries, m);
}

/// The size on record for a path is that of the last file that has it.
pub proof fn lemma_last_size_counts(entries: Seq<FileEntry>, i: int, j: int)
    requires
        0 <= i <= j < entries.len(),
        components(entries[i].path@) == components(entries[j].path@),
        forall|m: int|
            j < m < entries.len() ==> components((#[trigger] entries[m]).path@) != components(
                entries[i].path@,
            ),
    ensures
        recorded_size(entries, i) == entries[j].size,
{
    let pairs = size_pairs(entries);
    let k = components(entries[i].path@);
    assert forall|m: int| j < m < pairs.len() implies (#[trigger] pairs[m]).0 != k by {
        assert(components(entries[m].path@) != k);
    }
    lemma_last_counts(pairs, k, j);
}

/// The files to hash in full are the members of the groups, one group after the other,
/// each with the size of its group.
pub proof fn lemma_jobs_follow(groups: Seq<PartialGroup>)
    ensures
        jobs_of(groups) == groups.map_values(
            |g: PartialGroup| g.members@.map_values(|m: usize| FullJob { index: m, size: g.size }),
        ).flatten(),
    decreases groups.len(),
{
    let f = |g: PartialGroup|
        g.members@.map_values(|m: usize| FullJob { index: m, size: g.size });
    if groups.len() > 0 {
        let front = groups.drop_last();
        lemma_jobs_follow(front);
        assert(jobs_in(groups.last()) =~= f(groups.last()));
        assert(groups.map_values(f) =~= front.map_values(f).push(f(groups.last())));
        front.map_values(f).lemma_flatten_push(f(groups.last()));
    } else {
        assert(groups.map_values(f).flatten() =~= Seq::empty());
    }
}

/// The paths that the file of a hashed job gives to the group of a digest: none where it
/// could not be hashed or has another digest, else the paths of the hard links to it, or
/// its own where it has no other.
pub open spec fn paths_given(
    entries: Seq<FileEntry>,
    jobs: Seq<FullJob>,
    fulls: Seq<Option<Digest>>,
    links: LinkTable,
    digest: Seq<u8>,
    a: int,
) -> Seq<Seq<u8>> {
    let path = entries[jobs[a].index as int].path@;
    if fulls[a] is Some && fulls[a]->0@ == digest {
        match links.find(components(path)) {
            Some(paths) => paths@.map_values(|p: FilePath| p@),
            None => seq![path],
        }
    } else {
        Seq::empty()
    }
}

proof fn lemma_values_given(
    entries: Seq<FileEntry>,
    jobs: Seq<FullJob>,
    fulls: Seq<Option<Digest>>,
    links: LinkTable,
    digest: Seq<u8>,
    n: int,
)
    requires
        0 <= n,
    ensures
        values_at(full_pairs(entries, jobs, fulls, links, n), digest) == Seq::new(
            n as nat,
            |a: int| paths_given(entries, jobs, fulls, links, digest, a),
        ).flatten(),
    decreases n,
{
    let f = |a: int| paths_given(entries, jobs, fulls, links, digest, a);
    let parts = Seq::new(n as nat, f);
    if n == 0 {
        assert(parts.flatten() =~= Seq::empty());
    } else {
        let before = Seq::new((n - 1) as nat, f);
        let front = full_pairs(entries, jobs, fulls, links, n - 1);
        let path = entries[jobs[n - 1].index as int].path@;
        lemma_values_given(entries, jobs, fulls, links, digest, n - 1);
        assert(parts =~= before.push(f(n - 1)));
        before.lemma_flatten_push(f(n - 1));
        if let Some(found) = fulls[n - 1] {
            let paths = linked_paths(links, path);
            lemma_values_at_add(front, with_digest(found@, paths), digest);
            lemma_with_digest(found@, paths, digest);
            if let Some(list) = links.find(components(path)) {
                assert(path_views(list@) =~= list@.map_values(|p: FilePath| p@));
            }
        }
        assert(values_at(full_pairs(entries, jobs, fulls, links, n), digest) =~= values_at(
            front,
            digest,
        ) + f(n - 1));
    }
}

/// A group that was found by hashing holds what the hashed files of its digest give, one
/// after the other, and that is more than one path.
pub proof fn lemma_hashed_group_holds(
    entries: Seq<FileEntry>,
    jobs: Seq<FullJob>,
    fulls: Seq<Option<Digest>>,
    links: LinkTable,
    group: (Seq<u8>, Seq<Seq<u8>>),
)
    requires
        shared(
            grouped::<Digest, Seq<u8>>(full_pairs(entries, jobs, fulls, links, jobs.len() as int)),
        ).contains(group),
    ensures
        group.1.len() > 1,
        group.1 == Seq::new(
            jobs.len(),
            |a: int| paths_given(entries, jobs, fulls, links, group.0, a),
        ).flatten(),
{
    let pairs = full_pairs(entries, jobs, fulls, links, jobs.len() as int);
    lemma_shared_values::<Digest, Seq<u8>>(pairs, group);
    lemma_values_given(entries, jobs, fulls, links, group.0, jobs.len() as int);
}

/// Every digest under which the hashed files give more than one path has such a group.
pub proof fn lemma_hashed_group_is_found(
    entries: Seq<FileEntry>,
    jobs: Seq<FullJob>,
    fulls: Seq<Option<Digest>>,
    links: LinkTable,
    digest: Seq<u8>,
)
    requires
        Seq::new(
            jobs.len(),
            |a: int| paths_given(entries, jobs, fulls, links, digest, a),
        ).flatten().len() > 1,
    ensures
        shared(
            grouped::<Digest, Seq<u8>>(full_pairs(entries, jobs, fulls, links, jobs.len() as int)),
        ).contains(
            (
                digest,
                Seq::new(
                    jobs.len(),
                    |a: int| paths_given(entries, jobs, fulls, links, digest, a),
                ).flatten(),
            ),
        ),
{
    let pairs = full_pairs(entries, jobs, fulls, links, jobs.len() as int);
    lemma_values_given(entries, jobs, fulls, links, digest, jobs.len() as int);
    lemma_shared_group::<Digest, Seq<u8>>(pairs, digest);
}

/// The files that were hashed are counted where there is a digest.
pub proof fn lemma_hashed_count(fulls: Seq<Option<Digest>>, n: int)
    requires
        0 <= n <= fulls.len(),
    ensures
        hashed(fulls, n) == fulls.take(n).filter(|d: Option<Digest>| d is Some).len(),
    decreases n,
{
    reveal(Seq::filter);
    let p = |d: Option<Digest>| d is Some;
    if n > 0 {
        lemma_hashed_count(fulls, n - 1);
        assert(fulls.take(n).drop_last() =~= fulls.take(n - 1));
        assert(fulls.take(n).last() == fulls[n - 1]);
    }
}

} // verus!
