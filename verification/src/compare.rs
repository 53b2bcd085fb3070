//! Comparing the contents of a few files byte by byte.

use crate::entry::{records, FileEntry, FileRecord};
use crate::lex::same_bytes;
use crate::order::{
    keyed, lemma_count_found, lemma_count_found_two, lemma_count_one, lemma_count_two,
    lemma_sort_count, lemma_stable_sort, sort_by_key, stable_sort, SortKey,
};
use crate::path::{components, path_le, path_views, Component, FilePath, PathKey};
use vstd::prelude::*;

verus! {

/// Groups of at most this many files are compared byte by byte.
pub const BYTE_CMP_THRESHOLD: usize = 8;

/// A file together with its content, where that could be read.
pub struct LoadedFile<'a> {
    pub entry: FileEntry,
    pub content: Option<&'a [u8]>,
}

/// Whether both files could be read and hold the same bytes.
pub open spec fn same_content(a: LoadedFile, b: LoadedFile) -> bool {
    match (a.content, b.content) {
        (Some(x), Some(y)) => x@ == y@,
        _ => false,
    }
}

/// The files, each with its path as key.
pub open spec fn path_pairs<'a>(s: Seq<LoadedFile<'a>>) -> Seq<(Seq<Component>, LoadedFile<'a>)> {
    Seq::new(s.len(), |i: int| (components(s[i].entry.path@), s[i]))
}

/// The files sorted by path.
pub open spec fn by_path<'a>(s: Seq<LoadedFile<'a>>) -> Seq<LoadedFile<'a>> {
    let sorted = stable_sort::<PathKey, LoadedFile<'a>>(path_pairs(s));
    Seq::new(sorted.len(), |i: int| sorted[i].1)
}

/// Whether the file at `i` could be read and none before it holds the same bytes.
pub open spec fn leads(s: Seq<LoadedFile>, i: int) -> bool {
    s[i].content is Some && forall|j: int| 0 <= j < i ==> !same_content(#[trigger] s[j], s[i])
}

/// The paths of the files that hold the same bytes as `f`.
pub open spec fn twins(s: Seq<LoadedFile>, f: LoadedFile) -> Seq<Seq<u8>>
    decreases s.len(),
{
    if s.len() == 0 {
        Seq::empty()
    } else if same_content(f, s.last()) {
        twins(s.drop_last(), f).push(s.last().entry.path@)
    } else {
        twins(s.drop_last(), f)
    }
}

/// The groups of files with the same bytes that a file before `n` leads.
pub open spec fn twin_groups(s: Seq<LoadedFile>, n: int) -> Seq<Seq<Seq<u8>>>
    decreases n,
{
    if n <= 0 {
        Seq::empty()
    } else if leads(s, n - 1) && twins(s, s[n - 1]).len() > 1 {
        twin_groups(s, n - 1).push(twins(s, s[n - 1]))
    } else {
        twin_groups(s, n - 1)
    }
}

/// Whether no other file is known to hold the same bytes as the one at `i`.
pub open spec fn alone(s: Seq<LoadedFile>, i: int) -> bool {
    forall|j: int| 0 <= j < s.len() && j != i ==> !same_content(#[trigger] s[j], s[i])
}

/// Of the files before `n`, those that could not be read or are alone with their
/// bytes.
pub open spec fn unmatched(s: Seq<LoadedFile>, n: int) -> Seq<FileRecord>
    decreases n,
{
    if n <= 0 {
        Seq::empty()
    } else if alone(s, n - 1) {
        unmatched(s, n - 1).push(s[n - 1].entry@)
    } else {
        unmatched(s, n - 1)
    }
}

/// What groups of paths stand for.
pub open spec fn group_views(s: Seq<Vec<FilePath>>) -> Seq<Seq<Seq<u8>>> {
    Seq::new(s.len(), |i: int| path_views(s[i]@))
}

proof fn lemma_twins_add(s: Seq<LoadedFile>, t: Seq<LoadedFile>, f: LoadedFile)
    ensures
        twins(s + t, f) == twins(s, f) + twins(t, f),
    decreases t.len(),
{
    if t.len() == 0 {
        assert(s + t =~= s);
        assert(twins(s, f) + twins(t, f) =~= twins(s, f));
    } else {
        assert((s + t).drop_last() =~= s + t.drop_last());
        lemma_twins_add(s, t.drop_last(), f);
        assert(twins(s + t, f) =~= twins(s, f) + twins(t, f));
    }
}

proof fn lemma_no_twins(s: Seq<LoadedFile>, f: LoadedFile)
    requires
        forall|j: int| 0 <= j < s.len() ==> !same_content(f, #[trigger] s[j]),
    ensures
        twins(s, f).len() == 0,
    decreases s.len(),
{
    if s.len() > 0 {
        assert forall|j: int| 0 <= j < s.drop_last().len() implies !same_content(
            f,
            #[trigger] s.drop_last()[j],
        ) by {
            assert(s.drop_last()[j] == s[j]);
        }
        lemma_no_twins(s.drop_last(), f);
        assert(!same_content(f, s[s.len() - 1]));
    }
}

proof fn lemma_twins_counted(s: Seq<LoadedFile>, f: LoadedFile, i: int)
    requires
        0 <= i < s.len(),
        same_content(f, s[i]),
    ensures
        twins(s, f).len() >= 1,
        twins(s, f).contains(s[i].entry.path@),
        twins(s, f).len() > 1 <==> exists|j: int|
            0 <= j < s.len() && j != i && same_content(f, #[trigger] s[j]),
{
    let before = s.take(i);
    let here = seq![s[i]];
    let behind = s.skip(i + 1);
    assert(s =~= before + here + behind);
    lemma_twins_add(before + here, behind, f);
    lemma_twins_add(before, here, f);
    assert(here.drop_last() =~= Seq::empty());
    assert(twins(here, f) =~= seq![s[i].entry.path@]) by {
        reveal_with_fuel(twins, 2);
    }
    let all = twins(s, f);
    assert(all[twins(before, f).len() as int] == s[i].entry.path@);
    lemma_twins_from(before, f);
    lemma_twins_from(behind, f);
    if twins(before, f).len() > 0 {
        let j = choose|j: int| 0 <= j < before.len() && same_content(f, #[trigger] before[j]);
        assert(same_content(f, s[j]));
    }
    if twins(behind, f).len() > 0 {
        let j = choose|j: int| 0 <= j < behind.len() && same_content(f, #[trigger] behind[j]);
        assert(same_content(f, s[i + 1 + j]));
    }
    if exists|j: int| 0 <= j < s.len() && j != i && same_content(f, #[trigger] s[j]) {
        let j = choose|j: int| 0 <= j < s.len() && j != i && same_content(f, #[trigger] s[j]);
        if j < i {
            assert(same_content(f, before[j]));
        } else {
            assert(same_content(f, behind[j - i - 1]));
        }
    }
}

proof fn lemma_twins_from(s: Seq<LoadedFile>, f: LoadedFile)
    ensures
        twins(s, f).len() > 0 <==> exists|j: int|
            0 <= j < s.len() && same_content(f, #[trigger] s[j]),
        forall|path: Seq<u8>| #[trigger]
            twins(s, f).contains(path) ==> exists|j: int|
                0 <= j < s.len() && same_content(f, #[trigger] s[j]) && s[j].entry.path@ == path,
    decreases s.len(),
{
    if s.len() > 0 {
        let front = s.drop_last();
        lemma_twins_from(front, f);
        let last = s.len() - 1;
        if same_content(f, s.last()) {
            assert(same_content(f, s[last]));
        }
        if twins(front, f).len() > 0 {
            let j = choose|j: int| 0 <= j < front.len() && same_content(f, #[trigger] front[j]);
            assert(same_content(f, s[j]));
        }
        if exists|j: int| 0 <= j < s.len() && same_content(f, #[trigger] s[j]) {
            let j = choose|j: int| 0 <= j < s.len() && same_content(f, #[trigger] s[j]);
            if j < last {
                assert(same_content(f, front[j]));
            }
        }
        assert forall|path: Seq<u8>| #[trigger] twins(s, f).contains(path) implies exists|j: int|
            0 <= j < s.len() && same_content(f, #[trigger] s[j]) && s[j].entry.path@ == path by {
            let m = choose|m: int| 0 <= m < twins(s, f).len() && twins(s, f)[m] == path;
            if m < twins(front, f).len() {
                assert(twins(front, f)[m] == path);
                assert(twins(front, f).contains(path));
                let j = choose|j: int|
                    0 <= j < front.len() && same_content(f, #[trigger] front[j])
                        && front[j].entry.path@ == path;
                assert(same_content(f, s[j]));
            } else {
                assert(same_content(f, s[last]));
            }
        }
    }
}

proof fn lemma_alone(s: Seq<LoadedFile>, i: int)
    requires
        0 <= i < s.len(),
        s[i].content is Some,
    ensures
        alone(s, i) <==> twins(s, s[i]).len() <= 1,
{
    lemma_twins_counted(s, s[i], i);
    if twins(s, s[i]).len() > 1 {
        let j = choose|j: int| 0 <= j < s.len() && j != i && same_content(s[i], #[trigger] s[j]);
        assert(same_content(s[j], s[i]));
    }
    if !alone(s, i) {
        let j = choose|j: int| 0 <= j < s.len() && j != i && same_content(#[trigger] s[j], s[i]);
        assert(same_content(s[i], s[j]));
    }
}

fn sorted_by_path<'a>(files: Vec<LoadedFile<'a>>) -> (r: Vec<LoadedFile<'a>>)
    ensures
        r@ == by_path(files@),
{
    let mut pairs: Vec<(PathKey, LoadedFile<'a>)> = Vec::new();
    for file in it: files
        invariant
            it.seq() == files@,
            pairs@.len() == it.index(),
            forall|i: int|
                0 <= i < pairs@.len() ==> #[trigger] keyed(pairs@)[i] == path_pairs(files@)[i],
    {
        let key = file.entry.path.key();
        let ghost before = keyed(pairs@);
        pairs.push((key, file));
        assert(keyed(pairs@) =~= before.push((key.value(), file)));
    }
    assert(keyed(pairs@) =~= path_pairs(files@));
    let pairs = sort_by_key(pairs);
    let ghost sorted = keyed(pairs@);
    let mut r: Vec<LoadedFile<'a>> = Vec::new();
    for pair in it: pairs
        invariant
            it.seq() == pairs@,
            sorted == keyed(pairs@),
            r@.len() == it.index(),
            forall|i: int| 0 <= i < r@.len() ==> #[trigger] r@[i] == sorted[i].1,
    {
        assert(sorted[it.index() as int].1 == pair.1);
        r.push(pair.1);
    }
    assert(r@ =~= by_path(files@));
    r
}

/// Whether two files could be read and hold the same bytes.
fn contents_match(a: &LoadedFile, b: &LoadedFile) -> (r: bool)
    ensures
        r == same_content(*a, *b),
{
    match (a.content, b.content) {
        (Some(x), Some(y)) => same_bytes(x, y),
        _ => false,
    }
}

/// Finds the files among the given ones that hold the same bytes. The first part of
/// the result are the groups of such files, in the order of their first paths, each
/// in the order of its paths; the second are the files that are left.
pub fn byte_compare_groups(files: Vec<LoadedFile>) -> (r: (Vec<Vec<FilePath>>, Vec<FileEntry>))
    ensures
        group_views(r.0@) == twin_groups(by_path(files@), files@.len() as int),
        records(r.1@) == unmatched(by_path(files@), files@.len() as int),
        forall|g: int, a: int, b: int|
            #![trigger r.0@[g]@[a], r.0@[g]@[b]]
            0 <= g < r.0@.len() && 0 <= a < r.0@[g]@.len() && 0 <= b < r.0@[g]@.len()
                ==> exists|i: int, j: int|
                #![trigger files@[i], files@[j]]
                0 <= i < files@.len() && 0 <= j < files@.len() && files@[i].entry.path@
                    == r.0@[g]@[a]@ && files@[j].entry.path@ == r.0@[g]@[b]@
                    && files@[i].content is Some && files@[j].content is Some
                    && files@[i].content->0@ == files@[j].content->0@,
{
    proof {
        lemma_stable_sort::<PathKey, LoadedFile>(path_pairs(files@));
    }
    let ghost given = files@;
    let files = sorted_by_path(files);
    let ghost s = files@;
    let len: usize = files.len();
    let mut matched: Vec<bool> = vec![false;len];
    let mut dup_groups: Vec<Vec<FilePath>> = Vec::new();
    let mut remaining: Vec<FileEntry> = Vec::new();
    let mut i: usize = 0;
    proof {
        assert(group_views(dup_groups@) =~= twin_groups(s, 0));
        assert(records(remaining@) =~= unmatched(s, 0));
    }
    while i < len
        invariant
            s == files@,
            len == s.len(),
            i <= len,
            matched@.len() == len,
            forall|j: int|
                i <= j < len ==> (#[trigger] matched@[j] <==> exists|l: int|
                    0 <= l < i && same_content(#[trigger] s[l], s[j])),
            group_views(dup_groups@) == twin_groups(s, i as int),
            records(remaining@) == unmatched(s, i as int),
        decreases len - i,
    {
        let ghost groups0 = group_views(dup_groups@);
        let ghost left0 = records(remaining@);
        let ghost f = s[i as int];
        let ghost matched0 = matched@;
        if matched[i] {
            proof {
                let l = choose|l: int| 0 <= l < i && same_content(#[trigger] s[l], s[i as int]);
                assert(!leads(s, i as int));
                assert(!alone(s, i as int));
                assert forall|j: int| i < j < len implies (#[trigger] matched@[j] <==> exists|l: int|
                    0 <= l < i + 1 && same_content(#[trigger] s[l], s[j])) by {
                    if same_content(s[i as int], s[j]) {
                        assert(same_content(s[l], s[j]));
                    }
                }
            }
            i = i + 1;
            continue ;
        }
        if files[i].content.is_none() {
            remaining.push(files[i].entry.clone());
            proof {
                assert(records(remaining@) =~= left0.push(f.entry@));
                assert forall|j: int| i < j < len implies (#[trigger] matched@[j] <==> exists|l: int|
                    0 <= l < i + 1 && same_content(#[trigger] s[l], s[j])) by {
                    if exists|l: int| 0 <= l < i + 1 && same_content(#[trigger] s[l], s[j]) {
                        let l = choose|l: int|
                            0 <= l < i + 1 && same_content(#[trigger] s[l], s[j]);
                        assert(l < i);
                    }
                }
            }
            i = i + 1;
            continue ;
        }
        assert(leads(s, i as int));
        proof {
            lemma_alone(s, i as int);
        }
        let mut group: Vec<FilePath> = Vec::new();
        group.push(files[i].entry.path.clone());
        matched[i] = true;
        let mut j: usize = i + 1;
        proof {
            let one = s.take(i + 1);
            assert(one =~= s.take(i as int).push(f));
            assert(one.drop_last() =~= s.take(i as int));
            assert forall|l: int| 0 <= l < s.take(i as int).len() implies !same_content(
                f,
                #[trigger] s.take(i as int)[l],
            ) by {
                assert(!same_content(s[l], f));
            }
            lemma_no_twins(s.take(i as int), f);
            assert(path_views(group@) =~= twins(s.take(j as int), f));
        }
        while j < len
            invariant
                s == files@,
                len == s.len(),
                i < j <= len,
                f == s[i as int],
                leads(s, i as int),
                matched@.len() == len,
                matched0.len() == len,
                forall|m: int|
                    i <= m < len ==> (#[trigger] matched0[m] <==> exists|l: int|
                        0 <= l < i && same_content(#[trigger] s[l], s[m])),
                forall|m: int|
                    i < m < j ==> (#[trigger] matched@[m] <==> matched0[m] || same_content(f, s[m])),
                forall|m: int| j <= m < len ==> #[trigger] matched@[m] == matched0[m],
                path_views(group@) == twins(s.take(j as int), f),
                group@.len() > 0,
            decreases len - j,
        {
            proof {
                assert(s.take(j + 1).drop_last() =~= s.take(j as int));
                assert(s.take(j + 1).last() == s[j as int]);
                assert(matched@[j as int] == matched0[j as int]);
                if matched0[j as int] && same_content(f, s[j as int]) {
                    let l = choose|l: int| 0 <= l < i && same_content(#[trigger] s[l], s[j as int]);
                    assert(same_content(s[l], f));
                    assert(false);
                }
            }
            if !matched[j] {
                if contents_match(&files[i], &files[j]) {
                    let ghost before = path_views(group@);
                    group.push(files[j].entry.path.clone());
                    assert(path_views(group@) =~= before.push(s[j as int].entry.path@));
                    matched[j] = true;
                }
            }
            j = j + 1;
        }
        proof {
            assert(s.take(len as int) =~= s);
            assert forall|m: int| i < m < len implies (#[trigger] matched@[m] <==> exists|l: int|
                0 <= l < i + 1 && same_content(#[trigger] s[l], s[m])) by {
                assert(matched@[m] <==> matched0[m] || same_content(f, s[m]));
                if matched0[m] {
                    let l = choose|l: int| 0 <= l < i && same_content(#[trigger] s[l], s[m]);
                    assert(same_content(s[l], s[m]));
                }
                if same_content(f, s[m]) {
                    assert(same_content(s[i as int], s[m]));
                }
            }
        }
        if group.len() > 1 {
            let ghost paths = path_views(group@);
            dup_groups.push(group);
            assert(group_views(dup_groups@) =~= groups0.push(paths));
        } else {
            remaining.push(files[i].entry.clone());
            assert(records(remaining@) =~= left0.push(f.entry@));
        }
        i = i + 1;
    }
    proof {
        assert forall|g: int, a: int, b: int|
            #![trigger dup_groups@[g]@[a], dup_groups@[g]@[b]]
            0 <= g < dup_groups@.len() && 0 <= a < dup_groups@[g]@.len() && 0 <= b
                < dup_groups@[g]@.len() implies exists|i: int, j: int|
            #![trigger given[i], given[j]]
            0 <= i < given.len() && 0 <= j < given.len() && given[i].entry.path@
                == dup_groups@[g]@[a]@ && given[j].entry.path@ == dup_groups@[g]@[b]@
                && given[i].content is Some && given[j].content is Some && given[i].content->0@
                == given[j].content->0@ by {
            lemma_members_agree(given, group_views(dup_groups@)[g], a, b);
        }
    }
    (dup_groups, remaining)
}

/// Any two places of a group are those of files that could be read, with equal bytes.
proof fn lemma_members_agree(files: Seq<LoadedFile>, group: Seq<Seq<u8>>, a: int, b: int)
    requires
        twin_groups(by_path(files), files.len() as int).contains(group),
        0 <= a < group.len(),
        0 <= b < group.len(),
    ensures
        exists|i: int, j: int|
            #![trigger files[i], files[j]]
            0 <= i < files.len() && 0 <= j < files.len() && files[i].entry.path@ == group[a]
                && files[j].entry.path@ == group[b] && files[i].content is Some
                && files[j].content is Some && files[i].content->0@ == files[j].content->0@,
{
    lemma_groups_are_twins(files, group);
    let l = choose|l: int|
        0 <= l < files.len() && (#[trigger] files[l]).content is Some && forall|path: Seq<u8>|
            #[trigger] group.contains(path) <==> exists|j: int|
                0 <= j < files.len() && (#[trigger] files[j]).content is Some
                    && files[j].content->0@ == files[l].content->0@ && files[j].entry.path@ == path;
    assert(group.contains(group[a]) && group.contains(group[b]));
    let i = choose|i: int|
        0 <= i < files.len() && (#[trigger] files[i]).content is Some && files[i].content->0@
            == files[l].content->0@ && files[i].entry.path@ == group[a];
    let j = choose|j: int|
        0 <= j < files.len() && (#[trigger] files[j]).content is Some && files[j].content->0@
            == files[l].content->0@ && files[j].entry.path@ == group[b];
    assert(files[i].content->0@ == files[j].content->0@);
}

proof fn lemma_leader(s: Seq<LoadedFile>, i: int) -> (l: int)
    requires
        0 <= i < s.len(),
        s[i].content is Some,
    ensures
        0 <= l <= i,
        leads(s, l),
        same_content(s[l], s[i]),
    decreases i,
{
    if leads(s, i) {
        i
    } else {
        let j = choose|j: int| 0 <= j < i && same_content(#[trigger] s[j], s[i]);
        lemma_leader(s, j)
    }
}

proof fn lemma_twin_groups_led(s: Seq<LoadedFile>, n: int)
    requires
        0 <= n <= s.len(),
    ensures
        forall|g: Seq<Seq<u8>>| #[trigger]
            twin_groups(s, n).contains(g) <==> exists|l: int|
                0 <= l < n && #[trigger] leads(s, l) && twins(s, s[l]).len() > 1 && g == twins(
                    s,
                    s[l],
                ),
    decreases n,
{
    if n > 0 {
        lemma_twin_groups_led(s, n - 1);
        let front = twin_groups(s, n - 1);
        let all = twin_groups(s, n);
        assert forall|g: Seq<Seq<u8>>| #[trigger] all.contains(g) <==> exists|l: int|
            0 <= l < n && #[trigger] leads(s, l) && twins(s, s[l]).len() > 1 && g == twins(
                s,
                s[l],
            ) by {
            if all.contains(g) {
                let m = choose|m: int| 0 <= m < all.len() && all[m] == g;
                if m < front.len() {
                    assert(front[m] == g);
                    assert(front.contains(g));
                } else {
                    assert(leads(s, n - 1));
                }
            }
            if exists|l: int|
                0 <= l < n && #[trigger] leads(s, l) && twins(s, s[l]).len() > 1 && g == twins(
                    s,
                    s[l],
                ) {
                let l = choose|l: int|
                    0 <= l < n && #[trigger] leads(s, l) && twins(s, s[l]).len() > 1 && g == twins(
                        s,
                        s[l],
                    );
                if l < n - 1 {
                    assert(leads(s, l));
                    assert(front.contains(g));
                    let m = choose|m: int| 0 <= m < front.len() && front[m] == g;
                    assert(all[m] == g);
                } else {
                    assert(all[all.len() - 1] == g);
                }
            }
        }
    }
}

proof fn lemma_by_path_from(files: Seq<LoadedFile>, i: int) -> (m: int)
    requires
        0 <= i < by_path(files).len(),
    ensures
        0 <= m < files.len(),
        files[m] == by_path(files)[i],
{
    lemma_stable_sort::<PathKey, LoadedFile>(path_pairs(files));
    let sorted = stable_sort::<PathKey, LoadedFile>(path_pairs(files));
    let pairs = path_pairs(files);
    assert(pairs.contains(sorted[i]));
    choose|m: int| 0 <= m < pairs.len() && pairs[m] == sorted[i]
}

proof fn lemma_by_path_to(files: Seq<LoadedFile>, i: int) -> (m: int)
    requires
        0 <= i < files.len(),
    ensures
        0 <= m < by_path(files).len(),
        by_path(files)[m] == files[i],
{
    let pairs = path_pairs(files);
    let p = |f: LoadedFile| f == files[i];
    lemma_count_one(pairs, p, i);
    lemma_sort_count::<PathKey, LoadedFile>(pairs, p);
    lemma_count_found(stable_sort::<PathKey, LoadedFile>(pairs), p)
}

/// A group has more than one file, and it has exactly those that could be read and
/// whose bytes are those of one of them: any two contents in it are equal byte for
/// byte, and no file that holds these bytes is missing.
pub proof fn lemma_groups_are_twins(files: Seq<LoadedFile>, group: Seq<Seq<u8>>)
    requires
        twin_groups(by_path(files), files.len() as int).contains(group),
    ensures
        group.len() > 1,
        exists|l: int|
            0 <= l < files.len() && (#[trigger] files[l]).content is Some && forall|path: Seq<u8>|
                #[trigger] group.contains(path) <==> exists|j: int|
                    0 <= j < files.len() && (#[trigger] files[j]).content is Some
                        && files[j].content->0@ == files[l].content->0@ && files[j].entry.path@
                        == path,
{
    let s = by_path(files);
    lemma_stable_sort::<PathKey, LoadedFile>(path_pairs(files));
    lemma_twin_groups_led(s, s.len() as int);
    let l = choose|l: int|
        0 <= l < s.len() && #[trigger] leads(s, l) && twins(s, s[l]).len() > 1 && group == twins(
            s,
            s[l],
        );
    lemma_twins_from(s, s[l]);
    let m = lemma_by_path_from(files, l);
    assert forall|path: Seq<u8>| #[trigger] group.contains(path) <==> exists|j: int|
        0 <= j < files.len() && (#[trigger] files[j]).content is Some && files[j].content->0@
            == files[m].content->0@ && files[j].entry.path@ == path by {
        if group.contains(path) {
            let j = choose|j: int|
                0 <= j < s.len() && same_content(s[l], #[trigger] s[j]) && s[j].entry.path@ == path;
            let k = lemma_by_path_from(files, j);
            assert(files[k].content->0@ == files[m].content->0@);
        }
        if exists|j: int|
            0 <= j < files.len() && (#[trigger] files[j]).content is Some && files[j].content->0@
                == files[m].content->0@ && files[j].entry.path@ == path {
            let j = choose|j: int|
                0 <= j < files.len() && (#[trigger] files[j]).content is Some
                    && files[j].content->0@ == files[m].content->0@ && files[j].entry.path@ == path;
            let k = lemma_by_path_to(files, j);
            lemma_twins_counted(s, s[l], k);
        }
    }
    assert(files[m].content is Some);
}

/// Two files that hold the same bytes end up in one group.
pub proof fn lemma_twins_are_grouped(files: Seq<LoadedFile>, i: int, j: int)
    requires
        0 <= i < j < files.len(),
        files[i].content is Some,
        files[j].content is Some,
        files[i].content->0@ == files[j].content->0@,
    ensures
        exists|group: Seq<Seq<u8>>| #[trigger]
            twin_groups(by_path(files), files.len() as int).contains(group) && group.contains(
                files[i].entry.path@,
            ) && group.contains(files[j].entry.path@),
{
    let s = by_path(files);
    let pairs = path_pairs(files);
    let sorted = stable_sort::<PathKey, LoadedFile>(pairs);
    lemma_stable_sort::<PathKey, LoadedFile>(pairs);
    let p = |f: LoadedFile| same_content(files[i], f);
    assert(p(pairs[i].1));
    assert(p(pairs[j].1));
    lemma_count_two(pairs, p, i, j);
    lemma_sort_count::<PathKey, LoadedFile>(pairs, p);
    let (a, b) = lemma_count_found_two(sorted, p);
    let x = lemma_by_path_to(files, i);
    let y = lemma_by_path_to(files, j);
    let l = lemma_leader(s, x);
    let group = twins(s, s[l]);
    assert(same_content(s[l], s[a]));
    assert(same_content(s[l], s[b]));
    lemma_twins_counted(s, s[l], a);
    assert(b != a && same_content(s[l], s[b]));
    assert(twins(s, s[l]).len() > 1);
    lemma_twins_counted(s, s[l], x);
    lemma_twins_counted(s, s[l], y);
    lemma_twin_groups_led(s, s.len() as int);
    assert(leads(s, l));
    assert(twin_groups(s, s.len() as int).contains(group));
}

/// The paths in a group stand in their order, and each stands there once where no
/// two files have one path.
pub proof fn lemma_group_in_order(files: Seq<LoadedFile>, group: Seq<Seq<u8>>)
    requires
        twin_groups(by_path(files), files.len() as int).contains(group),
    ensures
        forall|p: int, q: int|
            #![trigger group[p], group[q]]
            0 <= p < q < group.len() ==> path_le(components(group[p]), components(group[q])),
        (forall|i: int, j: int|
            #![trigger files[i], files[j]]
            0 <= i < j < files.len() ==> files[i].entry.path@ != files[j].entry.path@)
            ==> group.no_duplicates(),
{
    let s = by_path(files);
    let sorted = stable_sort::<PathKey, LoadedFile>(path_pairs(files));
    lemma_stable_sort::<PathKey, LoadedFile>(path_pairs(files));
    lemma_by_path_keys(files);
    lemma_twin_groups_led(s, s.len() as int);
    let l = choose|l: int|
        0 <= l < s.len() && #[trigger] leads(s, l) && twins(s, s[l]).len() > 1 && group == twins(
            s,
            s[l],
        );
    assert forall|p: int, q: int| 0 <= p < q < group.len() implies path_le(
        components(#[trigger] group[p]),
        components(#[trigger] group[q]),
    ) by {
        let (i, j) = lemma_twins_at(s, s[l], p, q);
        assert(PathKey::le(sorted[i].0, sorted[j].0));
    }
    if forall|i: int, j: int|
        #![trigger files[i], files[j]]
        0 <= i < j < files.len() ==> files[i].entry.path@ != files[j].entry.path@ {
        assert forall|p: int, q: int| 0 <= p < q < group.len() implies group[p] != group[q] by {
            let (i, j) = lemma_twins_at(s, s[l], p, q);
            lemma_by_path_distinct(files, i, j);
        }
    }
}

/// The groups stand in the order of their first paths.
pub proof fn lemma_groups_in_order(files: Seq<LoadedFile>)
    ensures
        ({
            let groups = twin_groups(by_path(files), files.len() as int);
            forall|p: int, q: int|
                #![trigger groups[p], groups[q]]
                0 <= p < q < groups.len() ==> path_le(
                    components(groups[p][0]),
                    components(groups[q][0]),
                )
        }),
{
    let s = by_path(files);
    let sorted = stable_sort::<PathKey, LoadedFile>(path_pairs(files));
    lemma_stable_sort::<PathKey, LoadedFile>(path_pairs(files));
    lemma_by_path_keys(files);
    let groups = twin_groups(s, files.len() as int);
    assert forall|p: int, q: int|
        #![trigger groups[p], groups[q]]
        0 <= p < q < groups.len() implies path_le(
        components(groups[p][0]),
        components(groups[q][0]),
    ) by {
        let (i, j) = lemma_groups_at(s, s.len() as int, p, q);
        assert(PathKey::le(sorted[i].0, sorted[j].0));
    }
}

/// Groups that were found by comparing share no path where no two files have one.
pub proof fn lemma_groups_are_disjoint(files: Seq<LoadedFile>, p: int, q: int, path: Seq<u8>)
    requires
        0 <= p < q < twin_groups(by_path(files), files.len() as int).len(),
        forall|i: int, j: int|
            #![trigger files[i], files[j]]
            0 <= i < j < files.len() ==> files[i].entry.path@ != files[j].entry.path@,
        twin_groups(by_path(files), files.len() as int)[p].contains(path),
    ensures
        !twin_groups(by_path(files), files.len() as int)[q].contains(path),
{
    let s = by_path(files);
    lemma_stable_sort::<PathKey, LoadedFile>(path_pairs(files));
    let groups = twin_groups(s, files.len() as int);
    let (i, j) = lemma_groups_at(s, s.len() as int, p, q);
    lemma_twins_from(s, s[i]);
    lemma_twins_from(s, s[j]);
    if groups[q].contains(path) {
        let a = choose|a: int|
            0 <= a < s.len() && same_content(s[i], #[trigger] s[a]) && s[a].entry.path@ == path;
        let b = choose|b: int|
            0 <= b < s.len() && same_content(s[j], #[trigger] s[b]) && s[b].entry.path@ == path;
        if a < b {
            lemma_by_path_distinct(files, a, b);
        } else if b < a {
            lemma_by_path_distinct(files, b, a);
        }
        assert(same_content(s[i], s[j]));
    }
}

proof fn lemma_by_path_keys(files: Seq<LoadedFile>)
    ensures
        forall|i: int|
            0 <= i < files.len() ==> (#[trigger] stable_sort::<PathKey, LoadedFile>(
                path_pairs(files),
            )[i]).0 == components(by_path(files)[i].entry.path@),
        by_path(files).len() == files.len(),
{
    let pairs = path_pairs(files);
    let sorted = stable_sort::<PathKey, LoadedFile>(pairs);
    lemma_stable_sort::<PathKey, LoadedFile>(pairs);
    assert forall|i: int| 0 <= i < files.len() implies (#[trigger] sorted[i]).0 == components(
        by_path(files)[i].entry.path@,
    ) by {
        assert(pairs.contains(sorted[i]));
    }
}

proof fn lemma_by_path_distinct(files: Seq<LoadedFile>, i: int, j: int)
    requires
        forall|i: int, j: int|
            #![trigger files[i], files[j]]
            0 <= i < j < files.len() ==> files[i].entry.path@ != files[j].entry.path@,
        0 <= i < j < by_path(files).len(),
    ensures
        by_path(files)[i].entry.path@ != by_path(files)[j].entry.path@,
{
    let s = by_path(files);
    let pairs = path_pairs(files);
    let sorted = stable_sort::<PathKey, LoadedFile>(pairs);
    let p = |f: LoadedFile| f.entry.path@ == s[i].entry.path@;
    if s[i].entry.path@ == s[j].entry.path@ {
        assert(p(sorted[i].1) && p(sorted[j].1));
        lemma_count_two(sorted, p, i, j);
        lemma_sort_count::<PathKey, LoadedFile>(pairs, p);
        let (a, b) = lemma_count_found_two(pairs, p);
        assert(files[a].entry.path@ == files[b].entry.path@);
    }
}

proof fn lemma_twins_at(s: Seq<LoadedFile>, f: LoadedFile, p: int, q: int) -> (r: (int, int))
    requires
        0 <= p < q < twins(s, f).len(),
    ensures
        0 <= r.0 < r.1 < s.len(),
        s[r.0].entry.path@ == twins(s, f)[p],
        s[r.1].entry.path@ == twins(s, f)[q],
    decreases s.len(),
{
    let front = s.drop_last();
    if q < twins(front, f).len() {
        lemma_twins_at(front, f, p, q)
    } else {
        assert(twins(front, f).contains(twins(front, f)[p]));
        lemma_twins_from(front, f);
        let i = choose|i: int|
            0 <= i < front.len() && same_content(f, #[trigger] front[i]) && front[i].entry.path@
                == twins(front, f)[p];
        (i, s.len() - 1)
    }
}

proof fn lemma_first_twin(s: Seq<LoadedFile>, l: int)
    requires
        0 <= l < s.len(),
        leads(s, l),
    ensures
        twins(s, s[l]).len() > 0,
        twins(s, s[l])[0] == s[l].entry.path@,
{
    let before = s.take(l);
    let here = seq![s[l]];
    let behind = s.skip(l + 1);
    assert(s =~= before + here + behind);
    lemma_twins_add(before + here, behind, s[l]);
    lemma_twins_add(before, here, s[l]);
    assert(here.drop_last() =~= Seq::empty());
    assert(twins(here, s[l]) =~= seq![s[l].entry.path@]) by {
        reveal_with_fuel(twins, 2);
    }
    assert forall|j: int| 0 <= j < before.len() implies !same_content(
        s[l],
        #[trigger] before[j],
    ) by {
        assert(!same_content(s[j], s[l]));
    }
    lemma_no_twins(before, s[l]);
    assert(twins(s, s[l])[0] == twins(here, s[l])[0]);
}

proof fn lemma_group_at(s: Seq<LoadedFile>, n: int, p: int) -> (l: int)
    requires
        0 <= n <= s.len(),
        0 <= p < twin_groups(s, n).len(),
    ensures
        0 <= l < n,
        leads(s, l),
        twin_groups(s, n)[p] == twins(s, s[l]),
        twin_groups(s, n)[p].len() > 0,
        twin_groups(s, n)[p][0] == s[l].entry.path@,
{
    lemma_twin_groups_led(s, n);
    assert(twin_groups(s, n).contains(twin_groups(s, n)[p]));
    let l = choose|l: int|
        0 <= l < n && #[trigger] leads(s, l) && twins(s, s[l]).len() > 1 && twin_groups(s, n)[p]
            == twins(s, s[l]);
    lemma_first_twin(s, l);
    l
}

proof fn lemma_groups_at(s: Seq<LoadedFile>, n: int, p: int, q: int) -> (r: (int, int))
    requires
        0 <= n <= s.len(),
        0 <= p < q < twin_groups(s, n).len(),
    ensures
        0 <= r.0 < r.1 < n,
        leads(s, r.0),
        leads(s, r.1),
        twin_groups(s, n)[p] == twins(s, s[r.0]),
        twin_groups(s, n)[q] == twins(s, s[r.1]),
        twin_groups(s, n)[p][0] == s[r.0].entry.path@,
        twin_groups(s, n)[q][0] == s[r.1].entry.path@,
    decreases n,
{
    let front = twin_groups(s, n - 1);
    if q < front.len() {
        lemma_groups_at(s, n - 1, p, q)
    } else {
        let i = lemma_group_at(s, n - 1, p);
        lemma_first_twin(s, n - 1);
        (i, n - 1)
    }
}

proof fn lemma_unmatched_from(s: Seq<LoadedFile>, n: int)
    requires
        0 <= n <= s.len(),
    ensures
        forall|e: FileRecord| #[trigger]
            unmatched(s, n).contains(e) <==> exists|i: int|
                0 <= i < n && #[trigger] alone(s, i) && s[i].entry@ == e,
    decreases n,
{
    if n > 0 {
        lemma_unmatched_from(s, n - 1);
        let front = unmatched(s, n - 1);
        let all = unmatched(s, n);
        assert forall|e: FileRecord| #[trigger] all.contains(e) <==> exists|i: int|
            0 <= i < n && #[trigger] alone(s, i) && s[i].entry@ == e by {
            if all.contains(e) {
                let m = choose|m: int| 0 <= m < all.len() && all[m] == e;
                if m < front.len() {
                    assert(front[m] == e);
                    assert(front.contains(e));
                } else {
                    assert(alone(s, n - 1));
                }
            }
            if exists|i: int| 0 <= i < n && #[trigger] alone(s, i) && s[i].entry@ == e {
                let i = choose|i: int| 0 <= i < n && #[trigger] alone(s, i) && s[i].entry@ == e;
                if i < n - 1 {
                    assert(alone(s, i));
                    assert(front.contains(e));
                    let m = choose|m: int| 0 <= m < front.len() && front[m] == e;
                    assert(all[m] == e);
                } else {
                    assert(all[all.len() - 1] == e);
                }
            }
        }
    }
}

proof fn lemma_alone_by_path(files: Seq<LoadedFile>, i: int, m: int)
    requires
        0 <= i < files.len(),
        0 <= m < by_path(files).len(),
        by_path(files)[m] == files[i],
    ensures
        alone(files, i) <==> alone(by_path(files), m),
{
    let s = by_path(files);
    let pairs = path_pairs(files);
    let sorted = stable_sort::<PathKey, LoadedFile>(pairs);
    lemma_stable_sort::<PathKey, LoadedFile>(pairs);
    let p = |f: LoadedFile| same_content(f, files[i]);
    lemma_sort_count::<PathKey, LoadedFile>(pairs, p);
    if !alone(files, i) {
        let j = choose|j: int|
            0 <= j < files.len() && j != i && same_content(#[trigger] files[j], files[i]);
        assert(p(pairs[i].1) && p(pairs[j].1));
        if i < j {
            lemma_count_two(pairs, p, i, j);
        } else {
            lemma_count_two(pairs, p, j, i);
        }
        let (a, b) = lemma_count_found_two(sorted, p);
        assert(same_content(s[a], s[m]) && same_content(s[b], s[m]));
    }
    if !alone(s, m) {
        let j = choose|j: int| 0 <= j < s.len() && j != m && same_content(#[trigger] s[j], s[m]);
        assert(p(sorted[m].1) && p(sorted[j].1));
        if m < j {
            lemma_count_two(sorted, p, m, j);
        } else {
            lemma_count_two(sorted, p, j, m);
        }
        let (a, b) = lemma_count_found_two(pairs, p);
        assert(same_content(files[a], files[i]) && same_content(files[b], files[i]));
    }
}

/// The files that are left are those that could not be read and those whose bytes no
/// other file holds.
pub proof fn lemma_left_are_alone(files: Seq<LoadedFile>)
    ensures
        forall|e: FileRecord| #[trigger]
            unmatched(by_path(files), files.len() as int).contains(e) <==> exists|i: int|
                0 <= i < files.len() && #[trigger] alone(files, i) && files[i].entry@ == e,
        forall|i: int|
            #![trigger files[i]]
            0 <= i < files.len() ==> (alone(files, i) <==> files[i].content is None || forall|j: int|
                0 <= j < files.len() && j != i && (#[trigger] files[j]).content is Some
                    ==> files[j].content->0@ != files[i].content->0@),
{
    let s = by_path(files);
    lemma_stable_sort::<PathKey, LoadedFile>(path_pairs(files));
    lemma_unmatched_from(s, s.len() as int);
    let left = unmatched(s, files.len() as int);
    assert forall|e: FileRecord| #[trigger] left.contains(e) <==> exists|i: int|
        0 <= i < files.len() && #[trigger] alone(files, i) && files[i].entry@ == e by {
        if left.contains(e) {
            let m = choose|m: int| 0 <= m < s.len() && #[trigger] alone(s, m) && s[m].entry@ == e;
            let i = lemma_by_path_from(files, m);
            lemma_alone_by_path(files, i, m);
            assert(alone(files, i));
        }
        if exists|i: int| 0 <= i < files.len() && #[trigger] alone(files, i) && files[i].entry@ == e {
            let i = choose|i: int|
                0 <= i < files.len() && #[trigger] alone(files, i) && files[i].entry@ == e;
            let m = lemma_by_path_to(files, i);
            lemma_alone_by_path(files, i, m);
            assert(alone(s, m));
        }
    }
    assert forall|i: int|
        #![trigger files[i]]
        0 <= i < files.len() implies (alone(files, i) <==> files[i].content is None || forall|j: int|
        0 <= j < files.len() && j != i && (#[trigger] files[j]).content is Some
            ==> files[j].content->0@ != files[i].content->0@) by {
        if alone(files, i) && files[i].content is Some {
            assert forall|j: int|
                0 <= j < files.len() && j != i && (
                #[trigger] files[j]).content is Some implies files[j].content->0@
                != files[i].content->0@ by {
                assert(!same_content(files[j], files[i]));
            }
        }
    }
}

/// Where no two files have one path, no file is left twice.
pub proof fn lemma_left_once(files: Seq<LoadedFile>)
    requires
        forall|i: int, j: int|
            #![trigger files[i], files[j]]
            0 <= i < j < files.len() ==> files[i].entry.path@ != files[j].entry.path@,
    ensures
        unmatched(by_path(files), files.len() as int).no_duplicates(),
{
    let s = by_path(files);
    lemma_stable_sort::<PathKey, LoadedFile>(path_pairs(files));
    let left = unmatched(s, files.len() as int);
    assert forall|p: int, q: int| 0 <= p < q < left.len() implies left[p] != left[q] by {
        let (i, j) = lemma_unmatched_at(s, s.len() as int, p, q);
        lemma_by_path_distinct(files, i, j);
    }
}

proof fn lemma_unmatched_at(s: Seq<LoadedFile>, n: int, p: int, q: int) -> (r: (int, int))
    requires
        0 <= n <= s.len(),
        0 <= p < q < unmatched(s, n).len(),
    ensures
        0 <= r.0 < r.1 < n,
        unmatched(s, n)[p] == s[r.0].entry@,
        unmatched(s, n)[q] == s[r.1].entry@,
    decreases n,
{
    let front = unmatched(s, n - 1);
    if q < front.len() {
        lemma_unmatched_at(s, n - 1, p, q)
    } else {
        lemma_unmatched_from(s, n - 1);
        assert(front.contains(front[p]));
        let i = choose|i: int| 0 <= i < n - 1 && #[trigger] alone(s, i) && s[i].entry@ == front[p];
        (i, n - 1)
    }
}

} // verus!
