//! Files that cannot be read: they disturb no others.

use crate::digest::Digest;
use crate::entry::{records, FileEntry, FileRecord};
use crate::filter::LinkTable;
use crate::order::{grouped, latest, lemma_grouped_map, map_groups, map_pairs, shared, values_at};
use crate::path::{components, same_path, Component};
use crate::pipeline::{
    full_pairs, hashed, jobs_in, jobs_of, lemma_jobs_in_range, partial_pairs, partial_views,
    recorded_size, size_pairs, FullJob, PartialGroup, PartialKey,
};
use vstd::prelude::*;

verus! {

/// What an optional digest stands for.
pub open spec fn digest_view(digest: Option<Digest>) -> Option<Seq<u8>> {
    match digest {
        Some(digest) => Some(digest@),
        None => None,
    }
}

/// Whether hashing the files came to these groups: `sample_of` and `digest_of` tell what
/// hashing a file gives, in samples and in full.
pub open spec fn hashed_to(
    entries: Seq<FileEntry>,
    partials: Seq<Option<Digest>>,
    groups: Seq<PartialGroup>,
    fulls: Seq<Option<Digest>>,
    sample_of: spec_fn(FileRecord) -> Option<Seq<u8>>,
    digest_of: spec_fn(FileRecord) -> Option<Seq<u8>>,
) -> bool {
    &&& entries.len() == partials.len() <= usize::MAX
    &&& forall|m: int|
        0 <= m < entries.len() ==> digest_view(#[trigger] partials[m]) == sample_of(entries[m]@)
    &&& partial_views(groups) == shared(
        grouped::<PartialKey, usize>(partial_pairs(entries, partials, entries.len() as int)),
    )
    &&& fulls.len() == jobs_of(groups).len()
    &&& forall|a: int|
        0 <= a < fulls.len() ==> digest_view(#[trigger] fulls[a]) == digest_of(
            entries[jobs_of(groups)[a].index as int]@,
        )
}

/// The places of the files to keep, among the first `n`.
spec fn kept_places(
    files: Seq<FileRecord>,
    keep: spec_fn(FileRecord) -> bool,
    n: int,
) -> Seq<usize>
    decreases n,
{
    if n <= 0 {
        Seq::empty()
    } else {
        let front = kept_places(files, keep, n - 1);
        if keep(files[n - 1]) {
            front.push((n - 1) as usize)
        } else {
            front
        }
    }
}

proof fn lemma_kept_places(files: Seq<FileRecord>, keep: spec_fn(FileRecord) -> bool, n: int)
    requires
        0 <= n <= files.len() <= usize::MAX,
    ensures
        kept_places(files, keep, n).len() == files.take(n).filter(keep).len(),
        forall|m: int|
            0 <= m < kept_places(files, keep, n).len() ==> (#[trigger] kept_places(
                files,
                keep,
                n,
            )[m]) < n && files.take(n).filter(keep)[m] == files[kept_places(
                files,
                keep,
                n,
            )[m] as int],
    decreases n,
{
    reveal(Seq::filter);
    if n > 0 {
        lemma_kept_places(files, keep, n - 1);
        let front = kept_places(files, keep, n - 1);
        let all = kept_places(files, keep, n);
        assert(files.take(n).drop_last() =~= files.take(n - 1));
        assert(files.take(n).last() == files[n - 1]);
        assert forall|m: int| 0 <= m < all.len() implies (#[trigger] all[m]) < n && files.take(
            n,
        ).filter(keep)[m] == files[all[m] as int] by {
            if m < front.len() {
                assert(all[m] == front[m]);
            }
        }
    }
}

proof fn lemma_kept_prefix(
    files: Seq<FileRecord>,
    keep: spec_fn(FileRecord) -> bool,
    m: int,
    n: int,
)
    requires
        0 <= m <= n <= files.len(),
    ensures
        kept_places(files, keep, m).len() <= kept_places(files, keep, n).len(),
        kept_places(files, keep, m) == kept_places(files, keep, n).take(
            kept_places(files, keep, m).len() as int,
        ),
    decreases n,
{
    let part = kept_places(files, keep, m);
    let whole = kept_places(files, keep, n);
    if m < n {
        lemma_kept_prefix(files, keep, m, n - 1);
        let front = kept_places(files, keep, n - 1);
        assert(whole.take(part.len() as int) =~= front.take(part.len() as int));
    } else {
        assert(whole.take(part.len() as int) =~= part);
    }
}

/// Whether `some` are the files of `all` at the places `kept`.
spec fn picked(all: Seq<FileEntry>, some: Seq<FileEntry>, kept: Seq<usize>) -> bool {
    &&& some.len() == kept.len()
    &&& forall|m: int|
        0 <= m < some.len() ==> (#[trigger] kept[m]) < all.len() && some[m]@ == all[kept[m] as int]@
}

proof fn lemma_sizes_kept(
    all: Seq<FileEntry>,
    some: Seq<FileEntry>,
    keep: spec_fn(FileRecord) -> bool,
    n: int,
    k: Seq<Component>,
)
    requires
        0 <= n <= all.len() <= usize::MAX,
        picked(all, some, kept_places(records(all), keep, all.len() as int)),
        forall|i: int|
            0 <= i < all.len() && components((#[trigger] all[i]).path@) == k ==> keep(all[i]@),
    ensures
        values_at(size_pairs(all).take(n), k) == values_at(
            size_pairs(some).take(kept_places(records(all), keep, n).len() as int),
            k,
        ),
    decreases n,
{
    let files = records(all);
    let kept = kept_places(files, keep, all.len() as int);
    let here = kept_places(files, keep, n);
    lemma_kept_prefix(files, keep, n, all.len() as int);
    if n > 0 {
        lemma_sizes_kept(all, some, keep, n - 1, k);
        let x = size_pairs(all);
        let y = size_pairs(some);
        assert(x.take(n).drop_last() =~= x.take(n - 1));
        assert(x.take(n).last() == x[n - 1]);
        if keep(files[n - 1]) {
            let m = here.len() - 1;
            assert(here[m] == n - 1);
            assert(kept[m] == here[m]);
            assert(some[m]@ == all[n - 1]@);
            assert(y.take(m + 1).drop_last() =~= y.take(m));
            assert(y.take(m + 1).last() == y[m]);
            assert(x[n - 1] == y[m]);
        } else {
            assert(components(all[n - 1].path@) != k);
        }
    } else {
        assert(size_pairs(all).take(0) =~= Seq::empty());
        assert(size_pairs(some).take(0) =~= Seq::empty());
    }
}

proof fn lemma_recorded_kept(
    all: Seq<FileEntry>,
    some: Seq<FileEntry>,
    keep: spec_fn(FileRecord) -> bool,
    m: int,
)
    requires
        all.len() <= usize::MAX,
        picked(all, some, kept_places(records(all), keep, all.len() as int)),
        0 <= m < some.len(),
        keep(some[m]@),
        forall|i: int, j: int|
            #![trigger all[i], all[j]]
            0 <= i < all.len() && 0 <= j < all.len() && same_path(all[i].path@, all[j].path@)
                ==> keep(all[i]@) == keep(all[j]@),
    ensures
        recorded_size(some, m) == recorded_size(
            all,
            kept_places(records(all), keep, all.len() as int)[m] as int,
        ),
{
    let n = all.len() as int;
    let kept = kept_places(records(all), keep, n);
    let at = kept[m] as int;
    let k = components(some[m].path@);
    assert(some[m]@ == all[at]@);
    assert forall|i: int|
        0 <= i < all.len() && components((#[trigger] all[i]).path@) == k implies keep(all[i]@) by {
        assert(same_path(all[i].path@, all[at].path@));
    }
    lemma_sizes_kept(all, some, keep, n, k);
    assert(size_pairs(all).take(n) =~= size_pairs(all));
    assert(size_pairs(some).take(kept.len() as int) =~= size_pairs(some));
    assert(latest(size_pairs(all), k) == latest(size_pairs(some), k));
}

/// From the places among the files that were kept to the places among all.
spec fn back(kept: Seq<usize>) -> spec_fn(usize) -> usize {
    |m: usize| kept[m as int]
}

proof fn lemma_pairs_kept(
    all: Seq<FileEntry>,
    partials: Seq<Option<Digest>>,
    some: Seq<FileEntry>,
    some_partials: Seq<Option<Digest>>,
    keep: spec_fn(FileRecord) -> bool,
    sample_of: spec_fn(FileRecord) -> Option<Seq<u8>>,
    n: int,
)
    requires
        0 <= n <= all.len() == partials.len() <= usize::MAX,
        some.len() == some_partials.len() <= usize::MAX,
        picked(all, some, kept_places(records(all), keep, all.len() as int)),
        forall|m: int|
            0 <= m < all.len() ==> digest_view(#[trigger] partials[m]) == sample_of(all[m]@),
        forall|m: int|
            0 <= m < some.len() ==> digest_view(#[trigger] some_partials[m]) == sample_of(some[m]@),
        forall|i: int|
            0 <= i < all.len() && !keep((#[trigger] all[i])@) ==> sample_of(all[i]@) is None,
        forall|i: int, j: int|
            #![trigger all[i], all[j]]
            0 <= i < all.len() && 0 <= j < all.len() && same_path(all[i].path@, all[j].path@)
                ==> keep(all[i]@) == keep(all[j]@),
    ensures
        partial_pairs(all, partials, n) == map_pairs(
            partial_pairs(
                some,
                some_partials,
                kept_places(records(all), keep, n).len() as int,
            ),
            back(kept_places(records(all), keep, all.len() as int)),
        ),
    decreases n,
{
    let files = records(all);
    let kept = kept_places(files, keep, all.len() as int);
    let here = kept_places(files, keep, n);
    let f = back(kept);
    lemma_kept_prefix(files, keep, n, all.len() as int);
    if n > 0 {
        lemma_pairs_kept(all, partials, some, some_partials, keep, sample_of, n - 1);
        let i = n - 1;
        assert(digest_view(partials[i]) == sample_of(all[i]@));
        assert(files[i] == all[i]@);
        if keep(files[i]) {
            let m = here.len() - 1;
            assert(here[m] == i);
            assert(kept[m] == here[m]);
            assert(some[m]@ == all[i]@);
            assert(digest_view(some_partials[m]) == sample_of(some[m]@));
            lemma_recorded_kept(all, some, keep, m);
            let before = partial_pairs(some, some_partials, m);
            let after = partial_pairs(some, some_partials, m + 1);
            if let Some(digest) = partials[i] {
                let x = ((recorded_size(some, m), some_partials[m]->0@), m as usize);
                assert(after == before.push(x));
                assert(map_pairs(after, f) =~= map_pairs(before, f).push((x.0, f(x.1))));
                assert(f(m as usize) == i as usize);
            }
        }
    } else {
        assert(partial_pairs(all, partials, 0) =~= map_pairs(
            partial_pairs(some, some_partials, 0),
            f,
        ));
    }
}

proof fn lemma_jobs_kept(
    groups: Seq<PartialGroup>,
    some_groups: Seq<PartialGroup>,
    f: spec_fn(usize) -> usize,
)
    requires
        partial_views(groups) == map_groups(partial_views(some_groups), f),
    ensures
        jobs_of(groups).len() == jobs_of(some_groups).len(),
        forall|a: int|
            0 <= a < jobs_of(groups).len() ==> (#[trigger] jobs_of(groups)[a]).index == f(
                jobs_of(some_groups)[a].index,
            ),
    decreases groups.len(),
{
    assert(partial_views(groups).len() == groups.len());
    assert(map_groups(partial_views(some_groups), f).len() == some_groups.len());
    if groups.len() > 0 {
        let x = groups.drop_last();
        let y = some_groups.drop_last();
        let last = groups.len() - 1;
        assert(partial_views(x) =~= partial_views(groups).drop_last());
        assert(map_groups(partial_views(y), f) =~= map_groups(
            partial_views(some_groups),
            f,
        ).drop_last());
        lemma_jobs_kept(x, y, f);
        assert(partial_views(groups)[last] == map_groups(partial_views(some_groups), f)[last]);
        let a0 = jobs_in(groups.last());
        let b0 = jobs_in(some_groups.last());
        assert(groups.last().members@ == some_groups.last().members@.map_values(f));
        assert forall|a: int| 0 <= a < jobs_of(groups).len() implies (#[trigger] jobs_of(
            groups,
        )[a]).index == f(jobs_of(some_groups)[a].index) by {
            if a < jobs_of(x).len() {
                assert(jobs_of(groups)[a] == jobs_of(x)[a]);
                assert(jobs_of(some_groups)[a] == jobs_of(y)[a]);
            } else {
                let m = a - jobs_of(x).len();
                assert(jobs_of(groups)[a] == a0[m]);
                assert(jobs_of(some_groups)[a] == b0[m]);
            }
        }
    }
}

proof fn lemma_fulls_kept(
    all: Seq<FileEntry>,
    jobs: Seq<FullJob>,
    fulls: Seq<Option<Digest>>,
    some: Seq<FileEntry>,
    some_jobs: Seq<FullJob>,
    some_fulls: Seq<Option<Digest>>,
    links: LinkTable,
    n: int,
)
    requires
        0 <= n <= jobs.len() == some_jobs.len(),
        fulls.len() == jobs.len(),
        some_fulls.len() == jobs.len(),
        forall|a: int|
            0 <= a < jobs.len() ==> digest_view(#[trigger] fulls[a]) == digest_view(some_fulls[a]),
        forall|a: int|
            0 <= a < jobs.len() ==> all[(#[trigger] jobs[a]).index as int].path@
                == some[some_jobs[a].index as int].path@,
    ensures
        full_pairs(all, jobs, fulls, links, n) == full_pairs(
            some,
            some_jobs,
            some_fulls,
            links,
            n,
        ),
        hashed(fulls, n) == hashed(some_fulls, n),
    decreases n,
{
    if n > 0 {
        lemma_fulls_kept(all, jobs, fulls, some, some_jobs, some_fulls, links, n - 1);
        assert(digest_view(fulls[n - 1]) == digest_view(some_fulls[n - 1]));
        assert(all[jobs[n - 1].index as int].path@ == some[some_jobs[n - 1].index as int].path@);
    }
}

/// Files that cannot be read are left out and disturb no others: hashing comes to the same
/// groups, and to the same count of files that were hashed in full, where they are not
/// there to begin with. `some` are the files of `all` for which `keep` holds. It holds of
/// both or neither of two files with one path, and what it does not hold of cannot be
/// sampled.
pub proof fn lemma_unreadable_files_disturb_nothing(
    all: Seq<FileEntry>,
    partials: Seq<Option<Digest>>,
    groups: Seq<PartialGroup>,
    fulls: Seq<Option<Digest>>,
    some: Seq<FileEntry>,
    some_partials: Seq<Option<Digest>>,
    some_groups: Seq<PartialGroup>,
    some_fulls: Seq<Option<Digest>>,
    links: LinkTable,
    keep: spec_fn(FileRecord) -> bool,
    sample_of: spec_fn(FileRecord) -> Option<Seq<u8>>,
    digest_of: spec_fn(FileRecord) -> Option<Seq<u8>>,
)
    requires
        records(some) == records(all).filter(keep),
        hashed_to(all, partials, groups, fulls, sample_of, digest_of),
        hashed_to(some, some_partials, some_groups, some_fulls, sample_of, digest_of),
        forall|i: int|
            0 <= i < all.len() && !keep((#[trigger] all[i])@) ==> sample_of(all[i]@) is None,
        forall|i: int, j: int|
            #![trigger all[i], all[j]]
            0 <= i < all.len() && 0 <= j < all.len() && same_path(all[i].path@, all[j].path@)
                ==> keep(all[i]@) == keep(all[j]@),
    ensures
        shared(
            grouped::<Digest, Seq<u8>>(
                full_pairs(all, jobs_of(groups), fulls, links, fulls.len() as int),
            ),
        ) == shared(
            grouped::<Digest, Seq<u8>>(
                full_pairs(some, jobs_of(some_groups), some_fulls, links, some_fulls.len() as int),
            ),
        ),
        hashed(fulls, fulls.len() as int) == hashed(some_fulls, some_fulls.len() as int),
{
    let files = records(all);
    let n = all.len() as int;
    let kept = kept_places(files, keep, n);
    let f = back(kept);
    lemma_kept_places(files, keep, n);
    assert(files.take(n) =~= files);
    assert(records(some).len() == some.len());
    assert forall|m: int| 0 <= m < some.len() implies (#[trigger] kept[m]) < all.len() && some[m]@
        == all[kept[m] as int]@ by {
        assert(records(some)[m] == some[m]@);
        assert(files[kept[m] as int] == all[kept[m] as int]@);
    }
    lemma_pairs_kept(all, partials, some, some_partials, keep, sample_of, n);
    let pairs = partial_pairs(some, some_partials, some.len() as int);
    lemma_grouped_map::<PartialKey, usize, usize>(pairs, f);
    assert(partial_views(groups) == map_groups(partial_views(some_groups), f));
    lemma_jobs_kept(groups, some_groups, f);
    let jobs = jobs_of(groups);
    let some_jobs = jobs_of(some_groups);
    lemma_jobs_in_range(some, some_partials, some_groups);
    assert forall|a: int| 0 <= a < jobs.len() implies all[(#[trigger] jobs[a]).index as int]@
        == some[some_jobs[a].index as int]@ by {
        let m = some_jobs[a].index as int;
        assert(some_jobs[a].index < some.len());
        assert(jobs[a].index == kept[m]);
    }
    assert forall|a: int| 0 <= a < jobs.len() implies digest_view(#[trigger] fulls[a])
        == digest_view(some_fulls[a]) by {
        assert(all[jobs[a].index as int]@ == some[some_jobs[a].index as int]@);
        assert(digest_view(some_fulls[a]) == digest_of(some[some_jobs[a].index as int]@));
    }
    assert forall|a: int| 0 <= a < jobs.len() implies all[(#[trigger] jobs[a]).index as int].path@
        == some[some_jobs[a].index as int].path@ by {
        assert(all[jobs[a].index as int]@.path == some[some_jobs[a].index as int]@.path);
    }
    lemma_fulls_kept(all, jobs, fulls, some, some_jobs, some_fulls, links, jobs.len() as int);
}

} // verus!
