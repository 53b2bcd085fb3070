//! Choosing which file of a group of duplicates is the original.

use crate::order::{
    count_values, keyed, lemma_count_found, lemma_count_found_two, lemma_count_one, lemma_count_two,
    lemma_sort_count, lemma_sort_map, lemma_stable_sort, map_pairs, sort_by_key, stable_sort,
    values_at,
};
use crate::path::{components, path_starts_with, path_views, same_path, FilePath};
use crate::pipeline::path_bytes;
use vstd::prelude::*;

verus! {

/// The first path that is `base` or lies below it.
pub open spec fn first_below(group: Seq<Seq<u8>>, base: Seq<u8>) -> Option<Seq<u8>>
    decreases group.len(),
{
    if group.len() == 0 {
        None
    } else {
        match first_below(group.drop_last(), base) {
            Some(path) => Some(path),
            None => if path_starts_with(group.last(), base) {
                Some(group.last())
            } else {
                None
            },
        }
    }
}

/// The paths but those that are the same as `path`.
pub open spec fn others(group: Seq<Seq<u8>>, path: Seq<u8>) -> Seq<Seq<u8>> {
    group.filter(|x: Seq<u8>| !same_path(x, path))
}

/// The paths with their lengths.
pub open spec fn length_pairs(group: Seq<Seq<u8>>) -> Seq<(u64, Seq<u8>)> {
    Seq::new(group.len(), |i: int| (group[i].len() as u64, group[i]))
}

/// The paths in the order of their lengths; those of one length keep their order.
pub open spec fn by_length(group: Seq<Seq<u8>>) -> Seq<Seq<u8>> {
    let sorted = stable_sort::<u64, Seq<u8>>(length_pairs(group));
    Seq::new(sorted.len(), |i: int| sorted[i].1)
}

/// The original of a group of paths and its duplicates. The original is the first
/// path below `prefer`, or the shortest path where none is.
pub open spec fn original_of(group: Seq<Seq<u8>>, prefer: Seq<u8>) -> (Seq<u8>, Seq<Seq<u8>>) {
    if group.len() <= 1 {
        (group[0], Seq::empty())
    } else {
        match first_below(group, prefer) {
            Some(path) => (path, others(group, path)),
            None => (by_length(group)[0], by_length(group).skip(1)),
        }
    }
}

fn find_below(group: &Vec<FilePath>, base: &FilePath) -> (r: Option<FilePath>)
    ensures
        match r {
            Some(path) => first_below(path_views(group@), base@) == Some(path@),
            None => first_below(path_views(group@), base@) is None,
        },
{
    let ghost paths = path_views(group@);
    let mut i: usize = 0;
    assert(paths.take(0) =~= Seq::empty());
    while i < group.len()
        invariant
            i <= group@.len(),
            paths == path_views(group@),
            first_below(paths.take(i as int), base@) is None,
        decreases group@.len() - i,
    {
        proof {
            assert(paths.take(i + 1).drop_last() =~= paths.take(i as int));
            assert(paths.take(i + 1).last() == group@[i as int]@);
        }
        if group[i].starts_with(base) {
            proof {
                lemma_first_below_stays(paths, base@, i + 1);
            }
            return Some(group[i].clone());
        }
        i = i + 1;
    }
    assert(paths.take(i as int) =~= paths);
    None
}

proof fn lemma_first_below_stays(group: Seq<Seq<u8>>, base: Seq<u8>, n: int)
    requires
        0 <= n <= group.len(),
        first_below(group.take(n), base) is Some,
    ensures
        first_below(group, base) == first_below(group.take(n), base),
    decreases group.len(),
{
    if n == group.len() {
        assert(group.take(n) =~= group);
    } else {
        assert(group.drop_last().take(n) =~= group.take(n));
        lemma_first_below_stays(group.drop_last(), base, n);
    }
}

fn without(group: &Vec<FilePath>, path: &FilePath) -> (r: Vec<FilePath>)
    ensures
        path_views(r@) == others(path_views(group@), path@),
{
    let ghost paths = path_views(group@);
    let mut r: Vec<FilePath> = Vec::new();
    let mut i: usize = 0;
    proof {
        reveal(Seq::filter);
        assert(paths.take(0) =~= Seq::empty());
        assert(path_views(r@) =~= others(paths.take(0), path@));
    }
    while i < group.len()
        invariant
            i <= group@.len(),
            paths == path_views(group@),
            path_views(r@) == others(paths.take(i as int), path@),
        decreases group@.len() - i,
    {
        let ghost before = path_views(r@);
        proof {
            reveal(Seq::filter);
            assert(paths.take(i + 1).drop_last() =~= paths.take(i as int));
            assert(paths.take(i + 1).last() == group@[i as int]@);
        }
        if !group[i].same(path) {
            r.push(group[i].clone());
            assert(path_views(r@) =~= before.push(group@[i as int]@));
        }
        i = i + 1;
    }
    assert(paths.take(i as int) =~= paths);
    r
}

fn sorted_by_length(group: &Vec<FilePath>) -> (r: Vec<FilePath>)
    ensures
        path_views(r@) == by_length(path_views(group@)),
{
    let ghost paths = path_views(group@);
    let f = Ghost(path_bytes());
    let mut pairs: Vec<(u64, FilePath)> = Vec::new();
    let mut i: usize = 0;
    while i < group.len()
        invariant
            i <= group@.len(),
            paths == path_views(group@),
            f@ == path_bytes(),
            pairs@.len() == i,
            forall|j: int|
                0 <= j < i ==> #[trigger] map_pairs(keyed(pairs@), f@)[j] == length_pairs(paths)[j],
        decreases group@.len() - i,
    {
        let ghost before = map_pairs(keyed(pairs@), f@);
        let length: usize = group[i].bytes.len();
        pairs.push((length as u64, group[i].clone()));
        assert(map_pairs(keyed(pairs@), f@) =~= before.push((length as u64, group@[i as int]@)));
        i = i + 1;
    }
    let ghost given = keyed(pairs@);
    assert(map_pairs(given, f@) =~= length_pairs(paths));
    let pairs = sort_by_key(pairs);
    let ghost done = keyed(pairs@);
    let mut r: Vec<FilePath> = Vec::new();
    for pair in it: pairs
        invariant
            it.seq() == pairs@,
            done == keyed(pairs@),
            r@.len() == it.index(),
            forall|j: int| 0 <= j < r@.len() ==> #[trigger] r@[j] == done[j].1,
    {
        assert(done[it.index() as int].1 == pair.1);
        r.push(pair.1);
    }
    proof {
        lemma_sort_map::<u64, FilePath, Seq<u8>>(given, f@);
        assert(path_views(r@) =~= by_length(paths));
    }
    r
}

/// Chooses the original of a group of paths; the others are its duplicates.
pub fn pick_original(group: &Vec<FilePath>, prefer_folder: &FilePath) -> (r: (
    FilePath,
    Vec<FilePath>,
))
    requires
        group@.len() > 0,
    ensures
        (r.0@, path_views(r.1@)) == original_of(path_views(group@), prefer_folder@),
{
    let ghost paths = path_views(group@);
    if group.len() <= 1 {
        let none: Vec<FilePath> = Vec::new();
        assert(path_views(none@) =~= Seq::empty());
        return (group[0].clone(), none);
    }
    if let Some(original) = find_below(group, prefer_folder) {
        let rest = without(group, &original);
        return (original, rest);
    }
    let mut rest = sorted_by_length(group);
    let ghost in_order = path_views(rest@);
    proof {
        lemma_stable_sort::<u64, Seq<u8>>(length_pairs(paths));
        assert(in_order.len() == paths.len());
    }
    let original = rest.remove(0);
    assert(path_views(rest@) =~= in_order.skip(1));
    (original, rest)
}

proof fn lemma_first_below(group: Seq<Seq<u8>>, base: Seq<u8>)
    ensures
        match first_below(group, base) {
            Some(path) => group.contains(path) && path_starts_with(path, base),
            None => forall|i: int|
                0 <= i < group.len() ==> !path_starts_with(#[trigger] group[i], base),
        },
    decreases group.len(),
{
    if group.len() > 0 {
        let front = group.drop_last();
        lemma_first_below(front, base);
        match first_below(front, base) {
            Some(path) => {
                let i = choose|i: int| 0 <= i < front.len() && front[i] == path;
                assert(group[i] == path);
            },
            None => {
                assert(group[group.len() - 1] == group.last());
                assert forall|i: int|
                    0 <= i < group.len() && first_below(group, base) is None implies !path_starts_with(
                    #[trigger] group[i],
                    base,
                ) by {
                    if i < front.len() {
                        assert(front[i] == group[i]);
                    }
                }
            },
        }
    }
}

proof fn lemma_others(group: Seq<Seq<u8>>, path: Seq<u8>)
    ensures
        forall|x: Seq<u8>| #[trigger]
            others(group, path).contains(x) <==> group.contains(x) && !same_path(x, path),
    decreases group.len(),
{
    reveal(Seq::filter);
    if group.len() > 0 {
        let front = group.drop_last();
        lemma_others(front, path);
        let f = others(front, path);
        let r = others(group, path);
        assert forall|x: Seq<u8>| #[trigger] r.contains(x) <==> group.contains(x) && !same_path(
            x,
            path,
        ) by {
            if r.contains(x) {
                let i = choose|i: int| 0 <= i < r.len() && r[i] == x;
                if i < f.len() {
                    assert(f.contains(f[i]));
                    let j = choose|j: int| 0 <= j < front.len() && front[j] == x;
                    assert(group[j] == x);
                } else {
                    assert(group[group.len() - 1] == x);
                }
            }
            if group.contains(x) && !same_path(x, path) {
                let i = choose|i: int| 0 <= i < group.len() && group[i] == x;
                if i < front.len() {
                    assert(front[i] == x);
                    assert(f.contains(x));
                    let j = choose|j: int| 0 <= j < f.len() && f[j] == x;
                    assert(r[j] == x);
                } else {
                    assert(r[r.len() - 1] == x);
                }
            }
        }
    }
}

proof fn lemma_by_length(group: Seq<Seq<u8>>)
    ensures
        by_length(group).len() == group.len(),
        forall|x: Seq<u8>| #[trigger] by_length(group).contains(x) <==> group.contains(x),
{
    let pairs = length_pairs(group);
    let done = stable_sort::<u64, Seq<u8>>(pairs);
    lemma_stable_sort::<u64, Seq<u8>>(pairs);
    assert forall|x: Seq<u8>| #[trigger] by_length(group).contains(x) <==> group.contains(x) by {
        let p = |v: Seq<u8>| v == x;
        lemma_sort_count::<u64, Seq<u8>>(pairs, p);
        if by_length(group).contains(x) {
            let i = choose|i: int| 0 <= i < by_length(group).len() && by_length(group)[i] == x;
            lemma_count_one(done, p, i);
            let j = lemma_count_found(pairs, p);
            assert(group[j] == x);
        }
        if group.contains(x) {
            let i = choose|i: int| 0 <= i < group.len() && group[i] == x;
            lemma_count_one(pairs, p, i);
            let j = lemma_count_found(done, p);
            assert(by_length(group)[j] == x);
        }
    }
}

/// Choosing an original loses no path and makes none up: the original and the
/// duplicates are paths of the group, and every path of the group is a duplicate or
/// the same path as the original.
pub proof fn lemma_original_keeps_paths(group: Seq<Seq<u8>>, prefer: Seq<u8>)
    requires
        group.len() > 0,
    ensures
        ({
            let (original, duplicates) = original_of(group, prefer);
            &&& group.contains(original)
            &&& forall|x: Seq<u8>| #[trigger] duplicates.contains(x) ==> group.contains(x)
            &&& forall|x: Seq<u8>| #[trigger]
                group.contains(x) ==> same_path(x, original) || duplicates.contains(x)
        }),
{
    let (original, duplicates) = original_of(group, prefer);
    if group.len() == 1 {
        assert(group[0] == original);
    } else {
        lemma_first_below(group, prefer);
        match first_below(group, prefer) {
            Some(path) => {
                lemma_others(group, path);
            },
            None => {
                lemma_by_length(group);
                let all = by_length(group);
                assert(all[0] == original);
                assert(all.contains(original));
                assert forall|x: Seq<u8>| #[trigger] duplicates.contains(x) implies group.contains(
                    x,
                ) by {
                    let i = choose|i: int| 0 <= i < duplicates.len() && duplicates[i] == x;
                    assert(all[i + 1] == x);
                    assert(all.contains(x));
                }
                assert forall|x: Seq<u8>| #[trigger] group.contains(x) implies same_path(x, original)
                    || duplicates.contains(x) by {
                    assert(all.contains(x));
                    let i = choose|i: int| 0 <= i < all.len() && all[i] == x;
                    if i > 0 {
                        assert(duplicates[i - 1] == x);
                    }
                }
            },
        }
    }
}

/// The original lies below the preferred folder where any path of the group does;
/// otherwise no path of the group is shorter.
pub proof fn lemma_original_is_preferred(group: Seq<Seq<u8>>, prefer: Seq<u8>)
    requires
        group.len() > 1,
        forall|i: int| 0 <= i < group.len() ==> (#[trigger] group[i]).len() <= u64::MAX,
    ensures
        (exists|i: int| 0 <= i < group.len() && path_starts_with(#[trigger] group[i], prefer))
            ==> path_starts_with(original_of(group, prefer).0, prefer),
        (forall|i: int| 0 <= i < group.len() ==> !path_starts_with(#[trigger] group[i], prefer))
            ==> forall|i: int|
            0 <= i < group.len() ==> original_of(group, prefer).0.len() <= (
            #[trigger] group[i]).len(),
{
    lemma_first_below(group, prefer);
    if first_below(group, prefer) is None {
        let pairs = length_pairs(group);
        let done = stable_sort::<u64, Seq<u8>>(pairs);
        lemma_stable_sort::<u64, Seq<u8>>(pairs);
        lemma_by_length(group);
        let original = done[0].1;
        assert(by_length(group)[0] == original);
        assert(by_length(group).contains(original));
        assert forall|i: int| 0 <= i < group.len() implies original.len() <= (
        #[trigger] group[i]).len() by {
            assert(group.contains(group[i]));
            assert(by_length(group).contains(group[i]));
            let j = choose|j: int|
                0 <= j < by_length(group).len() && by_length(group)[j] == group[i];
            assert(pairs.contains(done[0]) && pairs.contains(done[j]));
            assert(group.contains(original));
            assert(done[0].0 <= done[j].0);
        }
    } else {
        let path = first_below(group, prefer)->0;
        let i = choose|i: int| 0 <= i < group.len() && group[i] == path;
        assert(path_starts_with(group[i], prefer));
    }
}

proof fn lemma_others_count(group: Seq<Seq<u8>>, path: Seq<u8>)
    ensures
        others(group, path).len() + count_values(
            length_pairs(group),
            |v: Seq<u8>| same_path(v, path),
        ) == group.len(),
    decreases group.len(),
{
    reveal(Seq::filter);
    if group.len() > 0 {
        lemma_others_count(group.drop_last(), path);
        assert(length_pairs(group).drop_last() =~= length_pairs(group.drop_last()));
    }
}

/// In a group where no path occurs twice, all paths but one are duplicates, and none
/// of them is the same path as the original.
pub proof fn lemma_original_is_no_duplicate(group: Seq<Seq<u8>>, prefer: Seq<u8>)
    requires
        group.len() > 0,
        forall|i: int, j: int|
            #![trigger group[i], group[j]]
            0 <= i < j < group.len() ==> !same_path(group[i], group[j]),
    ensures
        original_of(group, prefer).1.len() == group.len() - 1,
        forall|x: Seq<u8>| #[trigger]
            original_of(group, prefer).1.contains(x) ==> !same_path(
                x,
                original_of(group, prefer).0,
            ),
{
    let (original, duplicates) = original_of(group, prefer);
    if group.len() > 1 {
        let pairs = length_pairs(group);
        let p = |v: Seq<u8>| same_path(v, original);
        lemma_original_keeps_paths(group, prefer);
        if count_values(pairs, p) >= 2 {
            let (i, j) = lemma_count_found_two(pairs, p);
            assert(same_path(group[i], group[j]));
            assert(false);
        }
        let at = choose|i: int| 0 <= i < group.len() && group[i] == original;
        lemma_count_one(pairs, p, at);
        lemma_first_below(group, prefer);
        match first_below(group, prefer) {
            Some(path) => {
                lemma_others(group, path);
                lemma_others_count(group, path);
                assert(p =~= (|v: Seq<u8>| same_path(v, path)));
            },
            None => {
                let done = stable_sort::<u64, Seq<u8>>(pairs);
                lemma_by_length(group);
                lemma_sort_count::<u64, Seq<u8>>(pairs, p);
                assert forall|x: Seq<u8>| #[trigger] duplicates.contains(x) implies !same_path(
                    x,
                    original,
                ) by {
                    let i = choose|i: int| 0 <= i < duplicates.len() && duplicates[i] == x;
                    assert(done[i + 1].1 == x);
                    if same_path(x, original) {
                        lemma_count_two(done, p, 0, i + 1);
                    }
                }
            },
        }
    }
}

/// The first path of a group that lies below the preferred directory is the original, and
/// its duplicates are the paths of the group that are other paths, in their order.
pub proof fn lemma_first_preferred_stays(group: Seq<Seq<u8>>, prefer: Seq<u8>, i: int)
    requires
        group.len() > 1,
        0 <= i < group.len(),
        components(prefer).is_prefix_of(components(group[i])),
        forall|j: int|
            0 <= j < i ==> !components(prefer).is_prefix_of(components(#[trigger] group[j])),
    ensures
        original_of(group, prefer).0 == group[i],
        original_of(group, prefer).1 == group.filter(
            |path: Seq<u8>| components(path) != components(group[i]),
        ),
{
    lemma_first_below_at(group, prefer, i);
    let p = |path: Seq<u8>| components(path) != components(group[i]);
    let q = |x: Seq<u8>| !same_path(x, group[i]);
    assert(p =~= q);
}

proof fn lemma_first_below_at(group: Seq<Seq<u8>>, prefer: Seq<u8>, i: int)
    requires
        0 <= i < group.len(),
        components(prefer).is_prefix_of(components(group[i])),
        forall|j: int|
            0 <= j < i ==> !components(prefer).is_prefix_of(components(#[trigger] group[j])),
    ensures
        first_below(group, prefer) == Some(group[i]),
    decreases group.len(),
{
    let front = group.drop_last();
    if i < front.len() {
        assert(front[i] == group[i]);
        assert forall|j: int| 0 <= j < i implies !components(prefer).is_prefix_of(
            components(#[trigger] front[j]),
        ) by {
            assert(front[j] == group[j]);
        }
        lemma_first_below_at(front, prefer, i);
    } else {
        lemma_none_below(front, prefer);
    }
}

proof fn lemma_none_below(group: Seq<Seq<u8>>, prefer: Seq<u8>)
    requires
        forall|j: int|
            0 <= j < group.len() ==> !components(prefer).is_prefix_of(
                components(#[trigger] group[j]),
            ),
    ensures
        first_below(group, prefer) is None,
    decreases group.len(),
{
    if group.len() > 0 {
        let front = group.drop_last();
        assert forall|j: int| 0 <= j < front.len() implies !components(prefer).is_prefix_of(
            components(#[trigger] front[j]),
        ) by {
            assert(front[j] == group[j]);
        }
        lemma_none_below(front, prefer);
        assert(!components(prefer).is_prefix_of(components(group[group.len() - 1])));
    }
}

proof fn lemma_lengths_kept(pairs: Seq<(u64, Seq<u8>)>, length: nat)
    requires
        forall|i: int|
            0 <= i < pairs.len() ==> (#[trigger] pairs[i]).0 == pairs[i].1.len(),
        length <= u64::MAX,
    ensures
        values_at(pairs, length as u64) == Seq::new(pairs.len(), |i: int| pairs[i].1).filter(
            |path: Seq<u8>| path.len() == length,
        ),
    decreases pairs.len(),
{
    reveal(Seq::filter);
    let p = |path: Seq<u8>| path.len() == length;
    let paths = Seq::new(pairs.len(), |i: int| pairs[i].1);
    if pairs.len() > 0 {
        let front = pairs.drop_last();
        assert forall|i: int| 0 <= i < front.len() implies (#[trigger] front[i]).0
            == front[i].1.len() by {
            assert(front[i] == pairs[i]);
        }
        lemma_lengths_kept(front, length);
        assert(paths.drop_last() =~= Seq::new(front.len(), |i: int| front[i].1));
        assert(pairs[pairs.len() - 1].0 == pairs.last().1.len());
    }
}

/// Where none of several paths lies below the preferred directory, they are put in the
/// order of their lengths, those of one length as they come; the first is the original,
/// and so the shortest one, and the others are its duplicates.
pub proof fn lemma_shortest_stays(group: Seq<Seq<u8>>, prefer: Seq<u8>, length: nat)
    requires
        group.len() > 1,
        forall|j: int|
            0 <= j < group.len() ==> !components(prefer).is_prefix_of(
                components(#[trigger] group[j]),
            ),
        forall|j: int| 0 <= j < group.len() ==> (#[trigger] group[j]).len() <= u64::MAX,
        length <= u64::MAX,
    ensures
        ({
            let all = seq![original_of(group, prefer).0] + original_of(group, prefer).1;
            &&& all.len() == group.len()
            &&& forall|i: int, j: int|
                #![trigger all[i], all[j]]
                0 <= i < j < all.len() ==> all[i].len() <= all[j].len()
            &&& all.filter(|path: Seq<u8>| path.len() == length) == group.filter(
                |path: Seq<u8>| path.len() == length,
            )
        }),
{
    let pairs = length_pairs(group);
    let sorted = stable_sort::<u64, Seq<u8>>(pairs);
    let all = seq![original_of(group, prefer).0] + original_of(group, prefer).1;
    lemma_none_below(group, prefer);
    lemma_stable_sort::<u64, Seq<u8>>(pairs);
    assert(all =~= by_length(group));
    assert forall|i: int| 0 <= i < sorted.len() implies (#[trigger] sorted[i]).0
        == sorted[i].1.len() by {
        assert(pairs.contains(sorted[i]));
    }
    assert forall|i: int, j: int|
        #![trigger all[i], all[j]]
        0 <= i < j < all.len() implies all[i].len() <= all[j].len() by {
        assert(sorted[i].0 <= sorted[j].0);
    }
    lemma_lengths_kept(pairs, length);
    lemma_lengths_kept(sorted, length);
    assert(Seq::new(pairs.len(), |i: int| pairs[i].1) =~= group);
    assert(Seq::new(sorted.len(), |i: int| sorted[i].1) =~= all);
    assert(values_at(sorted, length as u64) == values_at(pairs, length as u64));
}

/// A path alone in its group is the original, and has no duplicate.
pub proof fn lemma_lone_path_stays(path: Seq<u8>, prefer: Seq<u8>)
    ensures
        original_of(seq![path], prefer) == (path, Seq::<Seq<u8>>::empty()),
{
}

} // verus!
