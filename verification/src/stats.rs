//! The numbers that sum a search up.

use crate::entry::{records, FileRecord};
use crate::filter::{are_size_groups, first_links, of_size, SizeGroup};
use crate::order::keyed;
use crate::path::FilePath;
use crate::pipeline::all_entries;
use crate::resolve::DuplicateGroups;
use vstd::prelude::*;

verus! {

/// What a search came to.
pub struct Stats {
    /// The files that were looked at: those that share their size with another one,
    /// and further hard links.
    pub total: u64,
    /// The duplicates.
    pub total_dupes: u64,
    /// The further hard links.
    pub inode_dupes: u64,
    /// The bytes that the duplicates take.
    pub wasted: u64,
    /// The groups of duplicates that were found by comparing bytes.
    pub byte_cmp_wins: u64,
    /// The files that were hashed in full.
    pub hash_ops: u64,
}

/// Counts the files of the groups.
pub fn count_candidates(groups: &Vec<SizeGroup>) -> (r: usize)
    requires
        all_entries(groups@).len() <= usize::MAX,
    ensures
        r == all_entries(groups@).len(),
{
    let mut r: usize = 0;
    let mut i: usize = 0;
    assert(groups@.take(0) =~= Seq::empty());
    while i < groups.len()
        invariant
            i <= groups@.len(),
            all_entries(groups@).len() <= usize::MAX,
            r == all_entries(groups@.take(i as int)).len(),
        decreases groups@.len() - i,
    {
        proof {
            assert(groups@.take(i + 1).drop_last() =~= groups@.take(i as int));
            lemma_entries_grow(groups@, i + 1);
        }
        r = r + groups[i].entries.len();
        i = i + 1;
    }
    assert(groups@.take(i as int) =~= groups@);
    r
}

proof fn lemma_entries_grow(groups: Seq<SizeGroup>, n: int)
    requires
        0 <= n <= groups.len(),
    ensures
        all_entries(groups.take(n)).len() <= all_entries(groups).len(),
    decreases groups.len(),
{
    if n == groups.len() {
        assert(groups.take(n) =~= groups);
    } else {
        assert(groups.drop_last().take(n) =~= groups.take(n));
        lemma_entries_grow(groups.drop_last(), n);
    }
}

/// How many files have one of the sizes.
spec fn files_of_sizes(sizes: Seq<u64>, files: Seq<FileRecord>) -> nat
    decreases sizes.len(),
{
    if sizes.len() == 0 {
        0
    } else {
        files_of_sizes(sizes.drop_last(), files) + of_size(files, sizes.last()).len()
    }
}

proof fn lemma_one_file_more(sizes: Seq<u64>, files: Seq<FileRecord>)
    requires
        files.len() > 0,
        forall|i: int, j: int|
            #![trigger sizes[i], sizes[j]]
            0 <= i < j < sizes.len() ==> sizes[i] < sizes[j],
    ensures
        files_of_sizes(sizes, files) <= files_of_sizes(sizes, files.drop_last()) + 1,
        !sizes.contains(files.last().size) ==> files_of_sizes(sizes, files) == files_of_sizes(
            sizes,
            files.drop_last(),
        ),
    decreases sizes.len(),
{
    if sizes.len() > 0 {
        let front = sizes.drop_last();
        reveal(Seq::filter);
        assert forall|i: int, j: int|
            #![trigger front[i], front[j]]
            0 <= i < j < front.len() implies front[i] < front[j] by {
            assert(sizes[i] < sizes[j]);
        }
        lemma_one_file_more(front, files);
        let size = files.last().size;
        assert(sizes[sizes.len() - 1] == sizes.last());
        if size == sizes.last() {
            if front.contains(size) {
                let i = choose|i: int| 0 <= i < front.len() && front[i] == size;
                assert(sizes[i] < sizes[sizes.len() - 1]);
            }
        }
        if front.contains(size) {
            let i = choose|i: int| 0 <= i < front.len() && front[i] == size;
            assert(sizes[i] == size);
        }
    }
}

proof fn lemma_no_files(sizes: Seq<u64>)
    ensures
        files_of_sizes(sizes, Seq::empty()) == 0,
    decreases sizes.len(),
{
    if sizes.len() > 0 {
        reveal(Seq::filter);
        lemma_no_files(sizes.drop_last());
    }
}

proof fn lemma_files_of_sizes(sizes: Seq<u64>, files: Seq<FileRecord>)
    requires
        forall|i: int, j: int|
            #![trigger sizes[i], sizes[j]]
            0 <= i < j < sizes.len() ==> sizes[i] < sizes[j],
    ensures
        files_of_sizes(sizes, files) <= files.len(),
    decreases files.len(),
{
    if files.len() == 0 {
        assert(files =~= Seq::empty());
        lemma_no_files(sizes);
    } else {
        lemma_files_of_sizes(sizes, files.drop_last());
        lemma_one_file_more(sizes, files);
    }
}

proof fn lemma_entries_of_sizes(groups: Seq<SizeGroup>, files: Seq<FileRecord>)
    requires
        forall|i: int|
            0 <= i < groups.len() ==> records((#[trigger] groups[i]).entries@) == of_size(
                files,
                groups[i].size,
            ),
    ensures
        all_entries(groups).len() == files_of_sizes(
            Seq::new(groups.len(), |i: int| groups[i].size),
            files,
        ),
    decreases groups.len(),
{
    if groups.len() > 0 {
        let front = groups.drop_last();
        let sizes = Seq::new(groups.len(), |i: int| groups[i].size);
        assert forall|i: int| 0 <= i < front.len() implies records(
            (#[trigger] front[i]).entries@,
        ) == of_size(files, front[i].size) by {
            assert(front[i] == groups[i]);
        }
        lemma_entries_of_sizes(front, files);
        assert(sizes.drop_last() =~= Seq::new(front.len(), |i: int| front[i].size));
        let last = groups[groups.len() - 1];
        assert(records(last.entries@) == of_size(files, last.size));
        assert(records(last.entries@).len() == last.entries@.len());
    }
}

/// The groups by size hold no more files than there are, so that they and the
/// further hard links are no more than all entries.
pub proof fn lemma_candidates_bound(groups: Seq<SizeGroup>, entries: Seq<FileRecord>)
    requires
        are_size_groups(groups, first_links(entries)),
    ensures
        all_entries(groups).len() <= first_links(entries).len(),
        all_entries(groups).len() + (entries.len() - first_links(entries).len()) <= entries.len(),
{
    let sizes = Seq::new(groups.len(), |i: int| groups[i].size);
    lemma_entries_of_sizes(groups, first_links(entries));
    assert forall|i: int, j: int|
        #![trigger sizes[i], sizes[j]]
        0 <= i < j < sizes.len() implies sizes[i] < sizes[j] by {
        assert(groups[i].size < groups[j].size);
    }
    lemma_files_of_sizes(sizes, first_links(entries));
}

/// The paths of the groups but for one of each.
pub open spec fn extra_paths(groups: Seq<(Seq<u8>, Vec<FilePath>)>) -> int
    decreases groups.len(),
{
    if groups.len() == 0 {
        0
    } else {
        extra_paths(groups.drop_last()) + (groups.last().1@.len() - 1)
    }
}

/// A size, or nothing where it is not known.
pub open spec fn known_size(size: Option<u64>) -> u64 {
    match size {
        Some(n) => n,
        None => 0,
    }
}

/// The bytes that the paths of the groups take, but for one path of each group,
/// where `sizes` are the sizes of the files of the groups.
pub open spec fn extra_bytes(
    groups: Seq<(Seq<u8>, Vec<FilePath>)>,
    sizes: Seq<Option<u64>>,
) -> int
    decreases groups.len(),
{
    if groups.len() == 0 {
        0
    } else {
        extra_bytes(groups.drop_last(), sizes) + known_size(sizes[groups.len() - 1]) * (
        groups.last().1@.len() - 1)
    }
}

proof fn lemma_extra_grows(
    groups: Seq<(Seq<u8>, Vec<FilePath>)>,
    sizes: Seq<Option<u64>>,
    n: int,
)
    requires
        0 <= n <= groups.len(),
        forall|i: int| 0 <= i < groups.len() ==> (#[trigger] groups[i]).1@.len() > 0,
    ensures
        0 <= extra_paths(groups.take(n)) <= extra_paths(groups),
        0 <= extra_bytes(groups.take(n), sizes) <= extra_bytes(groups, sizes),
    decreases groups.len(), groups.len() - n,
{
    if n == groups.len() {
        assert(groups.take(n) =~= groups);
        if n > 0 {
            let front = groups.drop_last();
            assert forall|i: int| 0 <= i < front.len() implies (#[trigger] front[i]).1@.len()
                > 0 by {
                assert(groups[i].1@.len() > 0);
            }
            lemma_extra_grows(front, sizes, n - 1);
            assert(groups[n - 1].1@.len() > 0);
            assert(front.take(n - 1) =~= front);
            let size = known_size(sizes[n - 1]);
            let more = groups.last().1@.len() - 1;
            assert(size * more >= 0) by (nonlinear_arith)
                requires
                    more >= 0,
            ;
        }
    } else {
        let front = groups.drop_last();
        assert forall|i: int| 0 <= i < front.len() implies (#[trigger] front[i]).1@.len() > 0 by {
            assert(groups[i].1@.len() > 0);
        }
        assert(front.take(n) =~= groups.take(n));
        lemma_extra_grows(front, sizes, n);
        assert(groups[groups.len() - 1].1@.len() > 0);
        let size = known_size(sizes[groups.len() - 1]);
        let more = groups.last().1@.len() - 1;
        assert(size * more >= 0) by (nonlinear_arith)
            requires
                more >= 0,
        ;
    }
}

/// Counts the paths of the groups but for one of each, if that fits.
pub fn count_duplicates(groups: &DuplicateGroups) -> (r: Option<u64>)
    requires
        forall|i: int| 0 <= i < groups@.len() ==> (#[trigger] groups@[i]).1@.len() > 0,
    ensures
        match r {
            Some(n) => n == extra_paths(keyed(groups@)),
            None => extra_paths(keyed(groups@)) > u64::MAX,
        },
{
        let ghost all = keyed(groups@);
    let ghost none: Seq<Option<u64>> = Seq::empty();
    let mut r: u64 = 0;
    let mut i: usize = 0;
    assert(all.take(0) =~= Seq::empty());
    while i < groups.len()
        invariant
            i <= groups@.len(),
            all == keyed(groups@),
            forall|i: int| 0 <= i < all.len() ==> (#[trigger] all[i]).1@.len() > 0,
            r == extra_paths(all.take(i as int)),
        decreases groups@.len() - i,
    {
        assert(all[i as int].1 == groups@[i as int].1);
        let more: u64 = (groups[i].1.len() - 1) as u64;
        proof {
            assert(all.take(i + 1).drop_last() =~= all.take(i as int));
            assert(all.take(i + 1).last() == all[i as int]);
            lemma_extra_grows(all, none, i + 1);
        }
        match r.checked_add(more) {
            Some(sum) => {
                r = sum;
            },
            None => {
                return None;
            },
        }
        i = i + 1;
    }
    assert(all.take(i as int) =~= all);
    Some(r)
}

/// Sums up the bytes that the paths of the groups take, but for one path of each
/// group, if that fits. `sizes` are the sizes of the files of the groups, where they
/// are known.
pub fn count_wasted(groups: &DuplicateGroups, sizes: &Vec<Option<u64>>) -> (r: Option<u64>)
    requires
        sizes@.len() == groups@.len(),
        forall|i: int| 0 <= i < groups@.len() ==> (#[trigger] groups@[i]).1@.len() > 0,
    ensures
        match r {
            Some(n) => n == extra_bytes(keyed(groups@), sizes@),
            None => extra_bytes(keyed(groups@), sizes@) > u64::MAX,
        },
{
        let ghost all = keyed(groups@);
    let mut r: u64 = 0;
    let mut i: usize = 0;
    assert(all.take(0) =~= Seq::empty());
    while i < groups.len()
        invariant
            i <= groups@.len(),
            all == keyed(groups@),
            sizes@.len() == all.len(),
            forall|i: int| 0 <= i < all.len() ==> (#[trigger] all[i]).1@.len() > 0,
            r == extra_bytes(all.take(i as int), sizes@),
        decreases groups@.len() - i,
    {
        assert(all[i as int].1 == groups@[i as int].1);
        let more: u64 = (groups[i].1.len() - 1) as u64;
        let size: u64 = match sizes[i] {
            Some(size) => size,
            None => 0,
        };
        proof {
            assert(all.take(i + 1).drop_last() =~= all.take(i as int));
            assert(all.take(i + 1).last() == all[i as int]);
            lemma_extra_grows(all, sizes@, i + 1);
            assert(extra_bytes(all.take(i + 1), sizes@) == r + size * more);
        }
        match size.checked_mul(more) {
            Some(bytes) => match r.checked_add(bytes) {
                Some(sum) => {
                    r = sum;
                },
                None => {
                    return None;
                },
            },
            None => {
                return None;
            },
        }
        i = i + 1;
    }
    assert(all.take(i as int) =~= all);
    Some(r)
}

impl Stats {
    /// The numbers of a search with these groups, if they fit. `sizes` are the sizes
    /// of the files of the groups, where they are known.
    pub fn gather(
        candidates: u64,
        inode_dupes: u64,
        groups: &DuplicateGroups,
        sizes: &Vec<Option<u64>>,
        byte_cmp_wins: u64,
        hash_ops: u64,
    ) -> (r: Option<Stats>)
        requires
            sizes@.len() == groups@.len(),
            forall|i: int| 0 <= i < groups@.len() ==> (#[trigger] groups@[i]).1@.len() > 0,
        ensures
            match r {
                Some(stats) => {
                    &&& stats.total == candidates + inode_dupes
                    &&& stats.total_dupes == extra_paths(keyed(groups@))
                    &&& stats.inode_dupes == inode_dupes
                    &&& stats.wasted == extra_bytes(keyed(groups@), sizes@)
                    &&& stats.byte_cmp_wins == byte_cmp_wins
                    &&& stats.hash_ops == hash_ops
                },
                None => {
                    ||| candidates + inode_dupes > u64::MAX
                    ||| extra_paths(keyed(groups@)) > u64::MAX
                    ||| extra_bytes(keyed(groups@), sizes@) > u64::MAX
                },
            },
    {
        let total_dupes = count_duplicates(groups);
        let wasted = count_wasted(groups, sizes);
        match (candidates.checked_add(inode_dupes), total_dupes, wasted) {
            (Some(total), Some(total_dupes), Some(wasted)) => Some(
                Stats { total, total_dupes, inode_dupes, wasted, byte_cmp_wins, hash_ops },
            ),
            _ => None,
        }
    }
}

/// The duplicates are all paths of the groups but one of each.
pub proof fn lemma_extra_paths(groups: Seq<(Seq<u8>, Vec<FilePath>)>)
    ensures
        extra_paths(groups) + groups.len() == groups.map_values(
            |g: (Seq<u8>, Vec<FilePath>)| g.1@,
        ).flatten().len(),
    decreases groups.len(),
{
    let f = |g: (Seq<u8>, Vec<FilePath>)| g.1@;
    let lists = groups.map_values(f);
    if groups.len() > 0 {
        let front = groups.drop_last();
        lemma_extra_paths(front);
        assert(lists =~= front.map_values(f).push(groups.last().1@));
        front.map_values(f).lemma_flatten_push(groups.last().1@);
    } else {
        assert(lists.flatten() =~= Seq::empty());
    }
}

/// A further group adds its size, where it is known, for each of its paths but one, to the
/// bytes that duplicates take; without groups they take none.
pub proof fn lemma_extra_bytes(
    groups: Seq<(Seq<u8>, Vec<FilePath>)>,
    sizes: Seq<Option<u64>>,
    more: (Seq<u8>, Vec<FilePath>),
    size: Option<u64>,
)
    requires
        sizes.len() == groups.len(),
    ensures
        extra_bytes(Seq::<(Seq<u8>, Vec<FilePath>)>::empty(), sizes) == 0,
        extra_bytes(groups.push(more), sizes.push(size)) == extra_bytes(groups, sizes)
            + if size is Some {
            size->0 * (more.1@.len() - 1)
        } else {
            0
        },
{
    let all = groups.push(more);
    assert(all.drop_last() =~= groups);
    lemma_extra_bytes_of(groups, sizes, sizes.push(size));
    assert(0 * (more.1@.len() - 1) == 0) by (nonlinear_arith);
}

proof fn lemma_extra_bytes_of(
    groups: Seq<(Seq<u8>, Vec<FilePath>)>,
    a: Seq<Option<u64>>,
    b: Seq<Option<u64>>,
)
    requires
        groups.len() <= a.len(),
        groups.len() <= b.len(),
        forall|i: int| 0 <= i < groups.len() ==> #[trigger] a[i] == b[i],
    ensures
        extra_bytes(groups, a) == extra_bytes(groups, b),
    decreases groups.len(),
{
    if groups.len() > 0 {
        lemma_extra_bytes_of(groups.drop_last(), a, b);
        assert(a[groups.len() - 1] == b[groups.len() - 1]);
    }
}

} // verus!
