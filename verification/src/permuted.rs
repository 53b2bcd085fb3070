//! The order in which files are found: the groups by inode and by size do not depend on it.

use crate::entry::{records, FileRecord};
use crate::filter::{
    are_size_groups, expansion, expansion_in, first_links, lemma_first_links, lemma_links_not_lost,
    linked_in, links_of, of_size, paths_of, same_inode, SizeGroup,
};
use crate::path::{components, same_path, Component};
use vstd::multiset::group_multiset_axioms;
use vstd::prelude::*;
use vstd::seq_lib::{to_multiset_build, to_multiset_contains, to_multiset_len};

verus! {

/// Whether entries that are links to one file have one size.
pub open spec fn one_size_each(s: Seq<FileRecord>) -> bool {
    forall|i: int, j: int|
        #![trigger s[i], s[j]]
        0 <= i < s.len() && 0 <= j < s.len() && same_inode(s[i], s[j]) ==> s[i].size == s[j].size
}

/// Whether a path names one file: entries with one path are links to one file. Two entries
/// may have one path, where the directories of a search overlap.
pub open spec fn one_file_each(s: Seq<FileRecord>) -> bool {
    forall|i: int, j: int|
        #![trigger s[i], s[j]]
        0 <= i < s.len() && 0 <= j < s.len() && same_path(s[i].path, s[j].path) ==> same_inode(
            s[i],
            s[j],
        )
}

/// The inodes of entries.
pub open spec fn inodes(s: Seq<FileRecord>) -> Seq<(u64, u64)> {
    s.map_values(|e: FileRecord| (e.dev, e.ino))
}

proof fn lemma_filter_multiset<A>(s: Seq<A>, p: spec_fn(A) -> bool)
    ensures
        s.filter(p).to_multiset() == s.to_multiset().filter(p),
    decreases s.len(),
{
    broadcast use group_multiset_axioms;

    reveal(Seq::filter);
    if s.len() == 0 {
        assert(s.filter(p) =~= s);
        to_multiset_len(s);
        assert(s.to_multiset().filter(p) =~= s.to_multiset());
    } else {
        let front = s.drop_last();
        lemma_filter_multiset(front, p);
        assert(s =~= front.push(s.last()));
        to_multiset_build(front, s.last());
        to_multiset_build(front.filter(p), s.last());
        assert(s.filter(p).to_multiset() =~= s.to_multiset().filter(p));
    }
}

proof fn lemma_same_elements<A>(s: Seq<A>, t: Seq<A>)
    requires
        s.to_multiset() == t.to_multiset(),
    ensures
        s.len() == t.len(),
        forall|x: A| #[trigger] s.contains(x) <==> t.contains(x),
{
    to_multiset_len(s);
    to_multiset_len(t);
    assert forall|x: A| #[trigger] s.contains(x) <==> t.contains(x) by {
        to_multiset_contains(s, x);
        to_multiset_contains(t, x);
    }
}

proof fn lemma_one_size(s: Seq<FileRecord>, a: FileRecord, b: FileRecord)
    requires
        one_size_each(s),
        s.contains(a),
        s.contains(b),
        same_inode(a, b),
    ensures
        a.size == b.size,
{
    let i = choose|i: int| 0 <= i < s.len() && s[i] == a;
    let j = choose|j: int| 0 <= j < s.len() && s[j] == b;
    assert(same_inode(s[i], s[j]));
}

proof fn lemma_first_link_of(s: Seq<FileRecord>, e: FileRecord) -> (f: FileRecord)
    requires
        s.contains(e),
    ensures
        first_links(s).contains(f),
        s.contains(f),
        same_inode(f, e),
{
    let firsts = first_links(s);
    lemma_first_links(s);
    let i = choose|i: int| 0 <= i < s.len() && s[i] == e;
    assert(linked_in(firsts, s[i]));
    let m = choose|m: int| 0 <= m < firsts.len() && same_inode(#[trigger] firsts[m], s[i]);
    assert(firsts.contains(firsts[m]));
    firsts[m]
}

proof fn lemma_inodes_distinct(s: Seq<FileRecord>, p: spec_fn(FileRecord) -> bool)
    requires
        inodes(s).no_duplicates(),
    ensures
        inodes(s.filter(p)).no_duplicates(),
    decreases s.len(),
{
    reveal(Seq::filter);
    if s.len() > 0 {
        let front = s.drop_last();
        assert(inodes(front) =~= inodes(s).drop_last());
        lemma_inodes_distinct(front, p);
        let kept = front.filter(p);
        let all = inodes(s.filter(p));
        if p(s.last()) {
            assert(all =~= inodes(kept).push((s.last().dev, s.last().ino)));
            assert forall|i: int| 0 <= i < kept.len() implies inodes(kept)[i] != (
                s.last().dev,
                s.last().ino,
            ) by {
                assert(kept.contains(kept[i]));
                front.lemma_filter_contains_rev(p, kept[i]);
                let m = choose|m: int| 0 <= m < front.len() && front[m] == kept[i];
                assert(inodes(s)[m] != inodes(s)[s.len() - 1]);
            }
        }
    }
}

proof fn lemma_first_inodes(s: Seq<FileRecord>)
    ensures
        inodes(first_links(s)).no_duplicates(),
{
    let firsts = first_links(s);
    lemma_first_links(s);
    assert forall|i: int, j: int|
        0 <= i < inodes(firsts).len() && 0 <= j < inodes(firsts).len() && i
            != j implies inodes(firsts)[i] != inodes(firsts)[j] by {
        if i < j {
            assert(!same_inode(firsts[i], firsts[j]));
        } else {
            assert(!same_inode(firsts[j], firsts[i]));
        }
    }
}

proof fn lemma_inodes_of_size(s: Seq<FileRecord>, size: u64, k: (u64, u64))
    requires
        one_size_each(s),
    ensures
        inodes(of_size(first_links(s), size)).contains(k) <==> exists|e: FileRecord| #[trigger]
            s.contains(e) && (e.dev, e.ino) == k && e.size == size,
{
    let firsts = first_links(s);
    let p = |x: FileRecord| x.size == size;
    let group = of_size(firsts, size);
    assert(group == firsts.filter(p));
    lemma_first_links(s);
    if inodes(group).contains(k) {
        let i = choose|i: int| 0 <= i < inodes(group).len() && inodes(group)[i] == k;
        assert(group.contains(group[i]));
        firsts.lemma_filter_contains_rev(p, group[i]);
        firsts.lemma_filter_pred(p, i);
        let m = choose|m: int| 0 <= m < firsts.len() && firsts[m] == group[i];
        assert(s.contains(firsts[m]));
        assert(p(group[i]));
    }
    if exists|e: FileRecord| #[trigger] s.contains(e) && (e.dev, e.ino) == k && e.size == size {
        let e = choose|e: FileRecord| #[trigger]
            s.contains(e) && (e.dev, e.ino) == k && e.size == size;
        let f = lemma_first_link_of(s, e);
        lemma_one_size(s, f, e);
        let m = choose|m: int| 0 <= m < firsts.len() && firsts[m] == f;
        firsts.lemma_filter_contains(p, m);
        let i = choose|i: int| 0 <= i < group.len() && group[i] == f;
        assert(inodes(group)[i] == k);
    }
}

proof fn lemma_inodes_contains(s: Seq<FileRecord>, k: (u64, u64))
    ensures
        inodes(first_links(s)).contains(k) <==> exists|e: FileRecord| #[trigger]
            s.contains(e) && (e.dev, e.ino) == k,
{
    let firsts = first_links(s);
    lemma_first_links(s);
    if inodes(firsts).contains(k) {
        let i = choose|i: int| 0 <= i < inodes(firsts).len() && inodes(firsts)[i] == k;
        assert(s.contains(firsts[i]));
    }
    if exists|e: FileRecord| #[trigger] s.contains(e) && (e.dev, e.ino) == k {
        let e = choose|e: FileRecord| #[trigger] s.contains(e) && (e.dev, e.ino) == k;
        let f = lemma_first_link_of(s, e);
        let m = choose|m: int| 0 <= m < firsts.len() && firsts[m] == f;
        assert(inodes(firsts)[m] == k);
    }
}

proof fn lemma_same_lengths<A>(a: Seq<A>, b: Seq<A>)
    requires
        a.no_duplicates(),
        b.no_duplicates(),
        forall|x: A| #[trigger] a.contains(x) <==> b.contains(x),
    ensures
        a.len() == b.len(),
        a.to_set() == b.to_set(),
{
    assert(a.to_set() =~= b.to_set()) by {
        assert forall|x: A| a.to_set().contains(x) <==> b.to_set().contains(x) by {
            assert(a.contains(x) <==> b.contains(x));
        }
    }
    a.unique_seq_to_set();
    b.unique_seq_to_set();
}

/// As many files are told apart by inode in whatever order the entries come, so that as
/// many entries are further links.
pub proof fn lemma_as_many_files(s: Seq<FileRecord>, t: Seq<FileRecord>)
    requires
        s.to_multiset() == t.to_multiset(),
    ensures
        s.len() == t.len(),
        first_links(s).len() == first_links(t).len(),
        inodes(first_links(s)).to_set() == inodes(first_links(t)).to_set(),
{
    lemma_same_elements(s, t);
    lemma_first_inodes(s);
    lemma_first_inodes(t);
    let a = inodes(first_links(s));
    let b = inodes(first_links(t));
    assert forall|k: (u64, u64)| #[trigger] a.contains(k) <==> b.contains(k) by {
        lemma_inodes_contains(s, k);
        lemma_inodes_contains(t, k);
        if a.contains(k) {
            let e = choose|e: FileRecord| #[trigger] s.contains(e) && (e.dev, e.ino) == k;
            assert(t.contains(e));
        }
        if b.contains(k) {
            let e = choose|e: FileRecord| #[trigger] t.contains(e) && (e.dev, e.ino) == k;
            assert(s.contains(e) <==> t.contains(e));
        }
    }
    lemma_same_lengths(a, b);
}

/// The same inodes have a size, in whatever order the entries come.
pub proof fn lemma_same_inodes_of_size(s: Seq<FileRecord>, t: Seq<FileRecord>, size: u64)
    requires
        s.to_multiset() == t.to_multiset(),
        one_size_each(s),
    ensures
        of_size(first_links(s), size).len() == of_size(first_links(t), size).len(),
        inodes(of_size(first_links(s), size)).to_set() == inodes(
            of_size(first_links(t), size),
        ).to_set(),
{
    lemma_same_elements(s, t);
    lemma_one_size_permuted(s, t);
    lemma_first_inodes(s);
    lemma_first_inodes(t);
    let p = |x: FileRecord| x.size == size;
    lemma_inodes_distinct(first_links(s), p);
    lemma_inodes_distinct(first_links(t), p);
    let a = inodes(of_size(first_links(s), size));
    let b = inodes(of_size(first_links(t), size));
    assert(a == inodes(first_links(s).filter(p)));
    assert(b == inodes(first_links(t).filter(p)));
    assert forall|k: (u64, u64)| #[trigger] a.contains(k) <==> b.contains(k) by {
        lemma_inodes_of_size(s, size, k);
        lemma_inodes_of_size(t, size, k);
        if a.contains(k) {
            let e = choose|e: FileRecord| #[trigger]
                s.contains(e) && (e.dev, e.ino) == k && e.size == size;
            assert(t.contains(e));
        }
        if b.contains(k) {
            let e = choose|e: FileRecord| #[trigger]
                t.contains(e) && (e.dev, e.ino) == k && e.size == size;
            assert(s.contains(e) <==> t.contains(e));
        }
    }
    lemma_same_lengths(a, b);
}

proof fn lemma_one_size_permuted(s: Seq<FileRecord>, t: Seq<FileRecord>)
    requires
        s.to_multiset() == t.to_multiset(),
        one_size_each(s),
    ensures
        one_size_each(t),
{
    lemma_same_elements(s, t);
    assert forall|i: int, j: int|
        #![trigger t[i], t[j]]
        0 <= i < t.len() && 0 <= j < t.len() && same_inode(t[i], t[j]) implies t[i].size
        == t[j].size by {
        assert(t.contains(t[i]) && t.contains(t[j]));
        assert(s.contains(t[i]) && s.contains(t[j]));
        lemma_one_size(s, t[i], t[j]);
    }
}

proof fn lemma_one_file_permuted(s: Seq<FileRecord>, t: Seq<FileRecord>)
    requires
        s.to_multiset() == t.to_multiset(),
        one_file_each(s),
    ensures
        one_file_each(t),
{
    lemma_same_elements(s, t);
    assert forall|i: int, j: int|
        #![trigger t[i], t[j]]
        0 <= i < t.len() && 0 <= j < t.len() && same_path(
            t[i].path,
            t[j].path,
        ) implies same_inode(t[i], t[j]) by {
        assert(t.contains(t[i]) && t.contains(t[j]));
        assert(s.contains(t[i]) && s.contains(t[j]));
        let a = choose|a: int| 0 <= a < s.len() && s[a] == t[i];
        let b = choose|b: int| 0 <= b < s.len() && s[b] == t[j];
        assert(same_inode(s[a], s[b]));
    }
}

pub(crate) proof fn lemma_expansion_from(
    s: Seq<FileRecord>,
    firsts: Seq<FileRecord>,
    k: Seq<Component>,
) -> (e: FileRecord)
    requires
        expansion_in(s, firsts, k) is Some,
    ensures
        firsts.contains(e),
        components(e.path) == k,
        links_of(s, e).len() > 1,
        expansion_in(s, firsts, k) == Some(paths_of(links_of(s, e))),
    decreases firsts.len(),
{
    if components(firsts.last().path) == k && links_of(s, firsts.last()).len() > 1 {
        assert(firsts[firsts.len() - 1] == firsts.last());
        firsts.last()
    } else {
        let e = lemma_expansion_from(s, firsts.drop_last(), k);
        let m = choose|m: int| 0 <= m < firsts.drop_last().len() && firsts.drop_last()[m] == e;
        assert(firsts[m] == e);
        e
    }
}

proof fn lemma_links_permuted(
    s: Seq<FileRecord>,
    t: Seq<FileRecord>,
    e: FileRecord,
    f: FileRecord,
)
    requires
        s.to_multiset() == t.to_multiset(),
        same_inode(e, f),
    ensures
        links_of(s, e).to_multiset() == links_of(t, f).to_multiset(),
        links_of(s, e).len() == links_of(t, f).len(),
        paths_of(links_of(s, e)).to_set() == paths_of(links_of(t, f)).to_set(),
{
    let p = |x: FileRecord| same_inode(x, e);
    let q = |x: FileRecord| same_inode(x, f);
    assert(p =~= q);
    assert(links_of(s, e) == s.filter(p));
    assert(links_of(t, f) == t.filter(q));
    lemma_filter_multiset(s, p);
    lemma_filter_multiset(t, p);
    let a = links_of(s, e);
    let b = links_of(t, f);
    lemma_same_elements(a, b);
    assert(paths_of(a).to_set() =~= paths_of(b).to_set()) by {
        assert forall|path: Seq<u8>|
            paths_of(a).to_set().contains(path) <==> paths_of(b).to_set().contains(path) by {
            if paths_of(a).contains(path) {
                let i = choose|i: int| 0 <= i < paths_of(a).len() && paths_of(a)[i] == path;
                assert(a.contains(a[i]));
                let j = choose|j: int| 0 <= j < b.len() && b[j] == a[i];
                assert(paths_of(b)[j] == path);
            }
            if paths_of(b).contains(path) {
                let i = choose|i: int| 0 <= i < paths_of(b).len() && paths_of(b)[i] == path;
                assert(b.contains(b[i]));
                assert(a.contains(b[i]));
                let j = choose|j: int| 0 <= j < a.len() && a[j] == b[i];
                assert(paths_of(a)[j] == path);
            }
        }
    }
}

pub(crate) proof fn lemma_first_paths_distinct(s: Seq<FileRecord>, t: Seq<FileRecord>)
    requires
        s.to_multiset() == t.to_multiset(),
        one_file_each(s),
    ensures
        forall|a: int, b: int|
            #![trigger first_links(t)[a], first_links(t)[b]]
            0 <= a < b < first_links(t).len() ==> components(first_links(t)[a].path) != components(
                first_links(t)[b].path,
            ),
{
    let firsts = first_links(t);
    lemma_same_elements(s, t);
    lemma_first_links(t);
    assert forall|a: int, b: int|
        #![trigger firsts[a], firsts[b]]
        0 <= a < b < firsts.len() implies components(firsts[a].path) != components(
        firsts[b].path,
    ) by {
        assert(!same_inode(firsts[a], firsts[b]));
        assert(t.contains(firsts[a]) && t.contains(firsts[b]));
        assert(s.contains(firsts[a]) && s.contains(firsts[b]));
        let i = choose|i: int| 0 <= i < s.len() && s[i] == firsts[a];
        let j = choose|j: int| 0 <= j < s.len() && s[j] == firsts[b];
        assert(same_path(s[i].path, s[j].path) ==> same_inode(s[i], s[j]));
    }
}

/// Whether two lists of linked paths are there and hold the same paths.
pub open spec fn same_list(a: Option<Seq<Seq<u8>>>, b: Option<Seq<Seq<u8>>>) -> bool {
    match (a, b) {
        (Some(x), Some(y)) => x.to_set() == y.to_set() && x.len() == y.len(),
        _ => false,
    }
}

/// The same lists of linked paths are known in whatever order the entries come: to each
/// list there is one, under the path of the link that comes first then, with the same
/// paths.
pub proof fn lemma_same_links(s: Seq<FileRecord>, t: Seq<FileRecord>, k: Seq<Component>)
    requires
        s.to_multiset() == t.to_multiset(),
        one_file_each(s),
        expansion(s, k) is Some,
    ensures
        exists|l: Seq<Component>| same_list(expansion(s, k), #[trigger] expansion(t, l)),
{
    lemma_same_elements(s, t);
    lemma_first_links(s);
    let e = lemma_expansion_from(s, first_links(s), k);
    let m = choose|m: int| 0 <= m < first_links(s).len() && first_links(s)[m] == e;
    assert(s.contains(first_links(s)[m]));
    assert(t.contains(e));
    let f = lemma_first_link_of(t, e);
    lemma_links_permuted(s, t, e, f);
    lemma_first_paths_distinct(s, t);
    let i = choose|i: int| 0 <= i < first_links(t).len() && first_links(t)[i] == f;
    lemma_links_not_lost(t, i);
    assert(same_list(expansion(s, k), expansion(t, components(f.path))));
}

/// Whether one of the groups is that of a size.
spec fn has_size(groups: Seq<SizeGroup>, size: u64) -> bool {
    exists|i: int| 0 <= i < groups.len() && (#[trigger] groups[i]).size == size
}

proof fn lemma_same_sizes(a: Seq<SizeGroup>, b: Seq<SizeGroup>)
    requires
        forall|i: int, j: int|
            #![trigger a[i], a[j]]
            0 <= i < j < a.len() ==> a[i].size < a[j].size,
        forall|i: int, j: int|
            #![trigger b[i], b[j]]
            0 <= i < j < b.len() ==> b[i].size < b[j].size,
        forall|size: u64| #[trigger] has_size(a, size) <==> has_size(b, size),
    ensures
        a.len() == b.len(),
        forall|i: int| 0 <= i < a.len() ==> (#[trigger] a[i]).size == b[i].size,
{
    let x = Seq::new(a.len(), |i: int| a[i].size);
    let y = Seq::new(b.len(), |i: int| b[i].size);
    assert forall|size: u64| #[trigger] x.contains(size) <==> y.contains(size) by {
        assert(has_size(a, size) <==> has_size(b, size));
        if x.contains(size) {
            let i = choose|i: int| 0 <= i < x.len() && x[i] == size;
            assert(a[i].size == size);
            let j = choose|j: int| 0 <= j < b.len() && (#[trigger] b[j]).size == size;
            assert(y[j] == size);
        }
        if y.contains(size) {
            let j = choose|j: int| 0 <= j < y.len() && y[j] == size;
            assert(b[j].size == size);
            let i = choose|i: int| 0 <= i < a.len() && (#[trigger] a[i]).size == size;
            assert(x[i] == size);
        }
    }
    assert forall|i: int, j: int| 0 <= i < j < x.len() implies x[i] < x[j] by {
        assert(a[i].size < a[j].size);
    }
    assert forall|i: int, j: int| 0 <= i < j < y.len() implies y[i] < y[j] by {
        assert(b[i].size < b[j].size);
    }
    lemma_increasing_equal(x, y);
    assert(x.len() == a.len() && y.len() == b.len());
    assert forall|i: int| 0 <= i < a.len() implies (#[trigger] a[i]).size == b[i].size by {
        assert(x[i] == y[i]);
    }
}

proof fn lemma_increasing_equal(x: Seq<u64>, y: Seq<u64>)
    requires
        forall|i: int, j: int| 0 <= i < j < x.len() ==> x[i] < x[j],
        forall|i: int, j: int| 0 <= i < j < y.len() ==> y[i] < y[j],
        forall|size: u64| #[trigger] x.contains(size) <==> y.contains(size),
    ensures
        x == y,
    decreases x.len(),
{
    if x.len() == 0 {
        if y.len() > 0 {
            assert(y.contains(y[0]));
            assert(x.contains(y[0]) <==> y.contains(y[0]));
        }
        assert(x =~= y);
    } else {
        let a = x.last();
        assert(x[x.len() - 1] == a);
        assert(x.contains(a));
        assert(y.contains(a));
        let i = choose|i: int| 0 <= i < y.len() && y[i] == a;
        let b = y.last();
        assert(y[y.len() - 1] == b);
        assert(y.contains(b));
        assert(x.contains(b) <==> y.contains(b));
        let j = choose|j: int| 0 <= j < x.len() && x[j] == b;
        assert(a == b);
        let x1 = x.drop_last();
        let y1 = y.drop_last();
        assert forall|size: u64| #[trigger] x1.contains(size) <==> y1.contains(size) by {
            if x1.contains(size) {
                let m = choose|m: int| 0 <= m < x1.len() && x1[m] == size;
                assert(x[m] == size);
                assert(x.contains(size));
                let n = choose|n: int| 0 <= n < y.len() && y[n] == size;
                assert(y1[n] == size);
            }
            if y1.contains(size) {
                let m = choose|m: int| 0 <= m < y1.len() && y1[m] == size;
                assert(y[m] == size);
                assert(y.contains(size));
                assert(x.contains(size) <==> y.contains(size));
                let n = choose|n: int| 0 <= n < x.len() && x[n] == size;
                assert(x1[n] == size);
            }
        }
        lemma_increasing_equal(x1, y1);
        assert(x =~= x1.push(a));
        assert(y =~= y1.push(b));
    }
}

/// The order in which files are found does not matter. Of two orders of the same entries,
/// where links to one file have one size, the groups by size have the same sizes, the
/// group of each size has the same inodes, as many entries are further links, and the same
/// lists of linked paths are known. Which of the links to a file stands for it may differ.
pub proof fn lemma_order_does_not_matter(
    s: Seq<FileRecord>,
    t: Seq<FileRecord>,
    groups: Seq<SizeGroup>,
    others: Seq<SizeGroup>,
)
    requires
        s.to_multiset() == t.to_multiset(),
        one_size_each(s),
        one_file_each(s),
        are_size_groups(groups, first_links(s)),
        are_size_groups(others, first_links(t)),
    ensures
        s.len() - first_links(s).len() == t.len() - first_links(t).len(),
        groups.len() == others.len(),
        forall|i: int|
            0 <= i < groups.len() ==> (#[trigger] groups[i]).size == others[i].size
                && groups[i].entries@.len() == others[i].entries@.len() && inodes(
                records(groups[i].entries@),
            ).to_set() == inodes(records(others[i].entries@)).to_set(),
        forall|k: Seq<Component>|
            (#[trigger] expansion(s, k)) is Some ==> exists|l: Seq<Component>|
                same_list(expansion(s, k), #[trigger] expansion(t, l)),
        forall|l: Seq<Component>|
            (#[trigger] expansion(t, l)) is Some ==> exists|k: Seq<Component>|
                same_list(expansion(t, l), #[trigger] expansion(s, k)),
{
    lemma_as_many_files(s, t);
    lemma_one_file_permuted(s, t);
    assert forall|k: Seq<Component>|
        (#[trigger] expansion(s, k)) is Some implies exists|l: Seq<Component>|
        same_list(expansion(s, k), #[trigger] expansion(t, l)) by {
        lemma_same_links(s, t, k);
    }
    assert forall|l: Seq<Component>|
        (#[trigger] expansion(t, l)) is Some implies exists|k: Seq<Component>|
        same_list(expansion(t, l), #[trigger] expansion(s, k)) by {
        lemma_same_links(t, s, l);
    }
    let x = first_links(s);
    let y = first_links(t);
    assert forall|size: u64| #[trigger] has_size(groups, size) <==> has_size(others, size) by {
        lemma_same_inodes_of_size(s, t, size);
        if has_size(groups, size) {
            let i = choose|i: int| 0 <= i < groups.len() && (#[trigger] groups[i]).size == size;
            assert(records(groups[i].entries@).len() == groups[i].entries@.len());
            assert(of_size(y, size).len() > 1);
        }
        if has_size(others, size) {
            let i = choose|i: int| 0 <= i < others.len() && (#[trigger] others[i]).size == size;
            assert(records(others[i].entries@).len() == others[i].entries@.len());
            assert(of_size(x, size).len() > 1);
        }
    }
    lemma_same_sizes(groups, others);
    assert forall|i: int| 0 <= i < groups.len() implies (#[trigger] groups[i]).size
        == others[i].size && groups[i].entries@.len() == others[i].entries@.len() && inodes(
        records(groups[i].entries@),
    ).to_set() == inodes(records(others[i].entries@)).to_set() by {
        lemma_same_inodes_of_size(s, t, groups[i].size);
        assert(records(groups[i].entries@).len() == groups[i].entries@.len());
        assert(records(others[i].entries@).len() == others[i].entries@.len());
    }
}

} // verus!
