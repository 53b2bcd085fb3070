//! What the actions for the groups of duplicates come to: which links stand where, which
//! files are deleted, and when the report is written and the output directory taken away.

use crate::format::{
    decimal, lemma_decimal_reads_back, lemma_padded, lemma_padded_number, number, padded,
};
use crate::organise::{
    actions_upto, all_actions, delete_actions, delete_one, duplicate_spots, duplicates_dir,
    group_actions, group_dir, holds_nothing_else, is_kept, last_actions, lemma_kept_by_place,
    link_actions, original_dir, original_spots, stands_at, writes_report, ActionView, PlanView,
};
use crate::output::{
    counted, counts, files_at_stake, has_earlier_report, report_is_free, report_path, Inside,
    OutputDir,
};
use crate::path::{
    components, join, lemma_first_step, lemma_name_below, path_starts_with, path_views, same_path,
    Component,
};
use crate::place::{place_of, PlaceTable};
use crate::report::is_report;
use vstd::prelude::*;
use vstd::utf8::{encode_utf8, encode_utf8_decode_utf8, is_ascii_chars_encode_utf8};

verus! {

proof fn lemma_plain_name(chars: Seq<char>)
    requires
        chars.len() > 2,
        forall|i: int|
            0 <= i < chars.len() ==> '0' <= #[trigger] chars[i] <= 'z',
    ensures
        encode_utf8(chars).len() > 2,
        forall|i: int| 0 <= i < encode_utf8(chars).len() ==> encode_utf8(chars)[i] != 0x2f,
{
    is_ascii_chars_encode_utf8(chars);
    let bytes = encode_utf8(chars);
    assert forall|i: int| 0 <= i < bytes.len() implies bytes[i] != 0x2f by {
        assert(chars[i] as u8 == bytes[i]);
    }
}

proof fn lemma_one_step(dir: Seq<u8>, chars: Seq<char>)
    requires
        chars.len() > 2,
        forall|i: int|
            0 <= i < chars.len() ==> '0' <= #[trigger] chars[i] <= 'z',
    ensures
        components(join(dir, encode_utf8(chars))) == components(dir).push(
            Component::Normal(encode_utf8(chars)),
        ),
        join(dir, encode_utf8(chars)).len() > 0,
{
    let name = encode_utf8(chars);
    lemma_plain_name(chars);
    assert(name != seq![0x2eu8]) by {
        assert(seq![0x2eu8].len() == 1);
    }
    assert(name != seq![0x2eu8, 0x2eu8]) by {
        assert(seq![0x2eu8, 0x2eu8].len() == 2);
    }
    if dir.len() > 0 {
        lemma_name_below(dir, name);
    } else {
        lemma_first_step(name);
        assert(dir =~= Seq::empty());
        assert(name[0] != 0x2f);
        assert(join(dir, name) =~= name);
        assert(components(name) =~= components(dir).push(Component::Normal(name)));
    }
}

/// The name of the directory of the group at place `i`: its number, counted from one, in
/// at least four digits.
pub open spec fn group_name(i: int) -> Seq<char> {
    "group_"@ + padded(decimal((i + 1) as nat), 4, '0')
}

proof fn lemma_group_name(i: int)
    requires
        i >= 0,
    ensures
        group_name(i).len() > 2,
        forall|j: int|
            0 <= j < group_name(i).len() ==> '0' <= #[trigger] group_name(i)[j] <= 'z',
        number(group_name(i).skip(6)) == i + 1,
{
    reveal_strlit("group_");
    let digits = decimal((i + 1) as nat);
    let tail = padded(digits, 4, '0');
    lemma_decimal_reads_back((i + 1) as nat);
    lemma_padded(digits, 4, '0');
    lemma_padded_number(digits, 4);
    assert(group_name(i).skip(6) =~= tail);
    assert forall|j: int| 0 <= j < group_name(i).len() implies '0' <= #[trigger] group_name(i)[j]
        <= 'z' by {
        if j >= 6 {
            let k = j - 6;
            assert(group_name(i)[j] == tail[k]);
            let pad = tail.len() - digits.len();
            if k >= pad {
                assert(tail.skip(pad)[k - pad] == digits[k - pad]);
                assert('0' <= digits[k - pad] <= '9');
            } else {
                assert(tail[k] == '0');
            }
        }
    }
}

/// The links to the original of a group and to its duplicates stand in two directories of
/// their own, `original` and `duplicates`, in the directory of the group, whose name is the
/// number of the group.
pub proof fn lemma_where_links_stand(output: Seq<u8>, i: int)
    requires
        i >= 0,
    ensures
        components(original_dir(output, i)) == components(output) + seq![
            Component::Normal(encode_utf8(group_name(i))),
            Component::Normal(encode_utf8("original"@)),
        ],
        components(duplicates_dir(output, i)) == components(output) + seq![
            Component::Normal(encode_utf8(group_name(i))),
            Component::Normal(encode_utf8("duplicates"@)),
        ],
{
    lemma_group_name(i);
    reveal_strlit("original");
    reveal_strlit("duplicates");
    let dir = group_dir(output, i);
    assert(dir == join(output, encode_utf8(group_name(i))));
    lemma_one_step(output, group_name(i));
    lemma_one_step(dir, "original"@);
    lemma_one_step(dir, "duplicates"@);
    assert(components(original_dir(output, i)) =~= components(output) + seq![
        Component::Normal(encode_utf8(group_name(i))),
        Component::Normal(encode_utf8("original"@)),
    ]);
    assert(components(duplicates_dir(output, i)) =~= components(output) + seq![
        Component::Normal(encode_utf8(group_name(i))),
        Component::Normal(encode_utf8("duplicates"@)),
    ]);
}

/// No two groups share a directory, and the links to an original and to duplicates do not
/// either.
pub proof fn lemma_link_directories_differ(output: Seq<u8>, i: int, j: int)
    requires
        0 <= i,
        0 <= j,
    ensures
        i != j ==> components(original_dir(output, i)) != components(original_dir(output, j)),
        i != j ==> components(duplicates_dir(output, i)) != components(duplicates_dir(output, j)),
        components(original_dir(output, i)) != components(duplicates_dir(output, j)),
{
    lemma_where_links_stand(output, i);
    lemma_where_links_stand(output, j);
    lemma_group_name(i);
    lemma_group_name(j);
    let n = components(output).len() as int;
    let a = components(original_dir(output, i));
    let b = components(original_dir(output, j));
    let c = components(duplicates_dir(output, i));
    let d = components(duplicates_dir(output, j));
    encode_utf8_decode_utf8(group_name(i));
    encode_utf8_decode_utf8(group_name(j));
    encode_utf8_decode_utf8("original"@);
    encode_utf8_decode_utf8("duplicates"@);
    reveal_strlit("original");
    reveal_strlit("duplicates");
    assert("original"@.len() != "duplicates"@.len());
    assert(a[n] == Component::Normal(encode_utf8(group_name(i))));
    assert(b[n] == Component::Normal(encode_utf8(group_name(j))));
    assert(c[n] == Component::Normal(encode_utf8(group_name(i))));
    assert(d[n] == Component::Normal(encode_utf8(group_name(j))));
    assert(a[n + 1] == Component::Normal(encode_utf8("original"@)));
    assert(d[n + 1] == Component::Normal(encode_utf8("duplicates"@)));
}

/// The links for the group at place `i`: one to its original, and one to each of its
/// duplicates.
pub open spec fn group_links(plan: PlanView, output: Seq<u8>, i: int) -> Seq<ActionView> {
    seq![ActionView::Link(plan.original, original_dir(output, i))] + Seq::new(
        plan.duplicates.len(),
        |d: int| ActionView::Link(plan.duplicates[d], duplicates_dir(output, i)),
    )
}

proof fn lemma_filter_all<A>(s: Seq<A>, p: spec_fn(A) -> bool)
    requires
        forall|i: int| 0 <= i < s.len() ==> p(#[trigger] s[i]),
    ensures
        s.filter(p) == s,
    decreases s.len(),
{
    reveal(Seq::filter);
    if s.len() > 0 {
        let front = s.drop_last();
        assert forall|i: int| 0 <= i < front.len() implies p(#[trigger] front[i]) by {
            assert(p(s[i]));
        }
        lemma_filter_all(front, p);
        assert(p(s[s.len() - 1]));
        assert(front.push(s.last()) =~= s);
    }
}

proof fn lemma_filter_none<A>(s: Seq<A>, p: spec_fn(A) -> bool)
    requires
        forall|i: int| 0 <= i < s.len() ==> !p(#[trigger] s[i]),
    ensures
        s.filter(p) == Seq::<A>::empty(),
    decreases s.len(),
{
    reveal(Seq::filter);
    if s.len() > 0 {
        let front = s.drop_last();
        assert forall|i: int| 0 <= i < front.len() implies !p(#[trigger] front[i]) by {
            assert(!p(s[i]));
        }
        lemma_filter_none(front, p);
        assert(!p(s[s.len() - 1]));
    }
}

spec fn is_link() -> spec_fn(ActionView) -> bool {
    |a: ActionView| a is Link
}

proof fn lemma_deletions_are_no_links(
    places: PlaceTable,
    plans: Seq<PlanView>,
    duplicates: Seq<Seq<u8>>,
    dir: Seq<u8>,
)
    ensures
        forall|i: int|
            0 <= i < delete_actions(places, plans, duplicates, dir).len() ==> {
                let a = #[trigger] delete_actions(places, plans, duplicates, dir)[i];
                a is DeleteSource || a is RemoveLinks
            },
    decreases duplicates.len(),
{
    if duplicates.len() > 0 {
        let front = delete_actions(places, plans, duplicates.drop_last(), dir);
        let all = delete_actions(places, plans, duplicates, dir);
        lemma_deletions_are_no_links(places, plans, duplicates.drop_last(), dir);
        assert forall|i: int| 0 <= i < all.len() implies {
            let a = #[trigger] all[i];
            a is DeleteSource || a is RemoveLinks
        } by {
            if i < front.len() {
                assert(all[i] == front[i]);
            }
        }
    }
}

proof fn lemma_group_links(
    places: PlaceTable,
    plans: Seq<PlanView>,
    output: Seq<u8>,
    delete: bool,
    i: int,
)
    ensures
        group_actions(places, plans, output, delete, i).filter(is_link()) == group_links(
            plans[i],
            output,
            i,
        ),
{
    let p = is_link();
    let links = link_actions(plans[i], output, i);
    let made = group_links(plans[i], output, i);
    let dir = duplicates_dir(output, i);
    assert(links.filter(p) == made) by {
        lemma_links_among(plans[i].original, plans[i].duplicates, original_dir(output, i), dir);
    }
    if delete {
        let gone = delete_actions(places, plans, plans[i].duplicates, dir);
        let tail = gone.push(ActionView::RemoveEmptyDir(dir));
        assert(tail.filter(p) == Seq::<ActionView>::empty()) by {
            lemma_deletions_are_no_links(places, plans, plans[i].duplicates, dir);
            lemma_filter_none(tail, p);
        }
        Seq::filter_distributes_over_add(links, tail, p);
        assert(made + Seq::<ActionView>::empty() =~= made);
        assert(group_actions(places, plans, output, delete, i) == links + tail);
    }
}

proof fn lemma_links_among(
    original: Seq<u8>,
    duplicates: Seq<Seq<u8>>,
    original_dir: Seq<u8>,
    dir: Seq<u8>,
)
    ensures
        (seq![
            ActionView::CreateDir(original_dir),
            ActionView::CreateDir(dir),
            ActionView::Link(original, original_dir),
        ] + Seq::new(duplicates.len(), |j: int| ActionView::Link(duplicates[j], dir))).filter(
            is_link(),
        ) == seq![ActionView::Link(original, original_dir)] + Seq::new(
            duplicates.len(),
            |j: int| ActionView::Link(duplicates[j], dir),
        ),
{
    let p = is_link();
    let dirs = seq![ActionView::CreateDir(original_dir), ActionView::CreateDir(dir)];
    let links = Seq::new(duplicates.len(), |j: int| ActionView::Link(duplicates[j], dir));
    let made = seq![ActionView::Link(original, original_dir)] + links;
    assert(seq![
        ActionView::CreateDir(original_dir),
        ActionView::CreateDir(dir),
        ActionView::Link(original, original_dir),
    ] + links =~= dirs + made);
    lemma_filter_none(dirs, p);
    lemma_filter_all(made, p);
    Seq::filter_distributes_over_add(dirs, made, p);
    assert(Seq::<ActionView>::empty() + made =~= made);
}

proof fn lemma_links_upto(
    places: PlaceTable,
    plans: Seq<PlanView>,
    output: Seq<u8>,
    delete: bool,
    n: int,
)
    requires
        0 <= n <= plans.len(),
    ensures
        actions_upto(places, plans, output, delete, n).filter(is_link()) == Seq::new(
            n as nat,
            |i: int| group_links(plans[i], output, i),
        ).flatten(),
    decreases n,
{
    let p = is_link();
    let parts = Seq::new(n as nat, |i: int| group_links(plans[i], output, i));
    if n == 0 {
        lemma_filter_none(seq![ActionView::CreateDir(output)], p);
        assert(parts.flatten() =~= Seq::empty());
    } else {
        let before = Seq::new((n - 1) as nat, |i: int| group_links(plans[i], output, i));
        lemma_links_upto(places, plans, output, delete, n - 1);
        lemma_group_links(places, plans, output, delete, n - 1);
        Seq::filter_distributes_over_add(
            actions_upto(places, plans, output, delete, n - 1),
            group_actions(places, plans, output, delete, n - 1),
            p,
        );
        assert(parts =~= before.push(group_links(plans[n - 1], output, n - 1)));
        before.lemma_flatten_push(group_links(plans[n - 1], output, n - 1));
    }
}

/// With deletion and without, the links that are made are one to the original of every
/// group and one to each of its duplicates, group by group, and nothing else is linked.
pub proof fn lemma_every_file_is_linked(
    places: PlaceTable,
    plans: Seq<PlanView>,
    output: OutputDir,
    delete: bool,
)
    ensures
        all_actions(places, plans, output, delete).filter(|a: ActionView| a is Link) == Seq::new(
            plans.len(),
            |i: int|
                seq![ActionView::Link(plans[i].original, original_dir(output.path@, i))] + Seq::new(
                    plans[i].duplicates.len(),
                    |d: int|
                        ActionView::Link(
                            plans[i].duplicates[d],
                            duplicates_dir(output.path@, i),
                        ),
                ),
        ).flatten(),
{
    let p = |a: ActionView| a is Link;
    assert(p =~= is_link());
    let body = actions_upto(places, plans, output.path@, delete, plans.len() as int);
    let end = last_actions(places, plans, output, delete);
    lemma_links_upto(places, plans, output.path@, delete, plans.len() as int);
    lemma_filter_none(end, p);
    Seq::filter_distributes_over_add(body, end, p);
    let made = body.filter(p);
    assert(made + Seq::<ActionView>::empty() =~= made);
    assert(Seq::new(plans.len(), |i: int| group_links(plans[i], output.path@, i)) =~= Seq::new(
        plans.len(),
        |i: int|
            seq![ActionView::Link(plans[i].original, original_dir(output.path@, i))] + Seq::new(
                plans[i].duplicates.len(),
                |d: int|
                    ActionView::Link(plans[i].duplicates[d], duplicates_dir(output.path@, i)),
            ),
    )) by {
        assert forall|i: int| 0 <= i < plans.len() implies group_links(
            plans[i],
            output.path@,
            i,
        ) == seq![ActionView::Link(plans[i].original, original_dir(output.path@, i))] + Seq::new(
            plans[i].duplicates.len(),
            |d: int| ActionView::Link(plans[i].duplicates[d], duplicates_dir(output.path@, i)),
        ) by {
            assert(group_links(plans[i], output.path@, i) =~= seq![
                ActionView::Link(plans[i].original, original_dir(output.path@, i)),
            ] + Seq::new(
                plans[i].duplicates.len(),
                |d: int| ActionView::Link(plans[i].duplicates[d], duplicates_dir(output.path@, i)),
            ));
        }
    }
}

proof fn lemma_group_at(
    places: PlaceTable,
    plans: Seq<PlanView>,
    output: Seq<u8>,
    delete: bool,
    n: int,
    i: int,
) -> (start: int)
    requires
        0 <= i < n <= plans.len(),
    ensures
        0 < start,
        start + group_actions(places, plans, output, delete, i).len() <= actions_upto(
            places,
            plans,
            output,
            delete,
            n,
        ).len(),
        forall|k: int|
            0 <= k < group_actions(places, plans, output, delete, i).len() ==> #[trigger] actions_upto(
                places,
                plans,
                output,
                delete,
                n,
            )[start + k] == group_actions(places, plans, output, delete, i)[k],
    decreases n,
{
    let before = actions_upto(places, plans, output, delete, n - 1);
    let all = actions_upto(places, plans, output, delete, n);
    let here = group_actions(places, plans, output, delete, i);
    if i < n - 1 {
        let start = lemma_group_at(places, plans, output, delete, n - 1, i);
        assert forall|k: int| 0 <= k < here.len() implies #[trigger] all[start + k] == here[k] by {
            assert(before[start + k] == here[k]);
        }
        start
    } else {
        lemma_begins(places, plans, output, delete, n - 1);
        before.len() as int
    }
}

proof fn lemma_begins(
    places: PlaceTable,
    plans: Seq<PlanView>,
    output: Seq<u8>,
    delete: bool,
    n: int,
)
    ensures
        actions_upto(places, plans, output, delete, n).len() > 0,
        actions_upto(places, plans, output, delete, n)[0] == ActionView::CreateDir(output),
    decreases n,
{
    if n > 0 {
        lemma_begins(places, plans, output, delete, n - 1);
    }
}

/// The actions begin with the making of the output directory. For every group its two
/// directories are made, then the link to the original, then the links to the duplicates;
/// with deletion, whatever is deleted or taken away for the group comes after that.
pub proof fn lemma_links_come_first(
    places: PlaceTable,
    plans: Seq<PlanView>,
    output: OutputDir,
    delete: bool,
    i: int,
) -> (start: int)
    requires
        0 <= i < plans.len(),
    ensures
        ({
            let all = all_actions(places, plans, output, delete);
            let dups = plans[i].duplicates;
            &&& all.len() > 0 && all[0] == ActionView::CreateDir(output.path@)
            &&& 0 < start && start + 3 + dups.len() <= all.len()
            &&& all[start] == ActionView::CreateDir(original_dir(output.path@, i))
            &&& all[start + 1] == ActionView::CreateDir(duplicates_dir(output.path@, i))
            &&& all[start + 2] == ActionView::Link(
                plans[i].original,
                original_dir(output.path@, i),
            )
            &&& forall|d: int|
                #![trigger dups[d]]
                0 <= d < dups.len() ==> all[start + 3 + d] == ActionView::Link(
                    dups[d],
                    duplicates_dir(output.path@, i),
                )
            &&& delete ==> exists|end: int|
                start + 3 + dups.len() <= end < all.len() && #[trigger] all[end]
                    == ActionView::RemoveEmptyDir(duplicates_dir(output.path@, i)) && forall|d: int|
                    #![trigger dups[d]]
                    0 <= d < dups.len() && !(exists|j: int|
                        0 <= j < plans.len() && components(
                            place_of(places, (#[trigger] plans[j]).original),
                        ) == components(place_of(places, dups[d]))) ==> exists|k: int|
                        start + 3 + dups.len() <= k < end - 1 && #[trigger] all[k]
                            == ActionView::DeleteSource(dups[d]) && all[k + 1]
                            == ActionView::RemoveLinks(dups[d], duplicates_dir(output.path@, i))
        }),
{
    let out = output.path@;
    let n = plans.len() as int;
    let dups = plans[i].duplicates;
    let body = actions_upto(places, plans, out, delete, n);
    let all = all_actions(places, plans, output, delete);
    let here = group_actions(places, plans, out, delete, i);
    let links = link_actions(plans[i], out, i);
    lemma_begins(places, plans, out, delete, n);
    let start = lemma_group_at(places, plans, out, delete, n, i);
    assert(links.len() == 3 + dups.len());
    assert forall|k: int| 0 <= k < here.len() implies #[trigger] all[start + k] == here[k] by {
        assert(body[start + k] == here[k]);
    }
    assert(all[start + 0] == here[0]);
    assert(all[start + 1] == here[1]);
    assert(all[start + 2] == here[2]);
    assert forall|d: int| #![trigger dups[d]] 0 <= d < dups.len() implies all[start + 3 + d]
        == ActionView::Link(dups[d], duplicates_dir(out, i)) by {
        assert(all[start + (3 + d)] == here[3 + d]);
        assert(here[3 + d] == links[3 + d]);
    }
    if delete {
        let dir = duplicates_dir(out, i);
        let gone = delete_actions(places, plans, dups, dir);
        let end = start + links.len() + gone.len();
        assert(here.len() == links.len() + gone.len() + 1);
        assert(all[start + (links.len() + gone.len())] == here[(links.len() + gone.len()) as int]);
        assert(all[end] == ActionView::RemoveEmptyDir(dir));
        assert forall|d: int|
            #![trigger dups[d]]
            0 <= d < dups.len() && !(exists|j: int|
                0 <= j < plans.len() && components(place_of(places, (#[trigger] plans[j]).original))
                    == components(place_of(places, dups[d]))) implies exists|k: int|
            start + 3 + dups.len() <= k < end - 1 && #[trigger] all[k] == ActionView::DeleteSource(
                dups[d],
            ) && all[k + 1] == ActionView::RemoveLinks(dups[d], dir) by {
            let k = lemma_deletion_at(places, plans, dups, dir, d);
            let m = start + links.len() + k;
            assert(all[start + (links.len() + k)] == here[links.len() + k]);
            assert(all[start + (links.len() + k + 1)] == here[links.len() + k + 1]);
            assert(all[m] == ActionView::DeleteSource(dups[d]));
            assert(all[m + 1] == ActionView::RemoveLinks(dups[d], dir));
        }
    }
    start
}

proof fn lemma_deletion_at(
    places: PlaceTable,
    plans: Seq<PlanView>,
    duplicates: Seq<Seq<u8>>,
    dir: Seq<u8>,
    d: int,
) -> (k: int)
    requires
        0 <= d < duplicates.len(),
        !(exists|j: int|
            0 <= j < plans.len() && components(place_of(places, (#[trigger] plans[j]).original))
                == components(place_of(places, duplicates[d]))),
    ensures
        0 <= k,
        k + 1 < delete_actions(places, plans, duplicates, dir).len(),
        delete_actions(places, plans, duplicates, dir)[k] == ActionView::DeleteSource(
            duplicates[d],
        ),
        delete_actions(places, plans, duplicates, dir)[k + 1] == ActionView::RemoveLinks(
            duplicates[d],
            dir,
        ),
    decreases duplicates.len(),
{
    let front = duplicates.drop_last();
    let before = delete_actions(places, plans, front, dir);
    let one = delete_one(places, plans, duplicates.last(), dir);
    let all = delete_actions(places, plans, duplicates, dir);
    if d < front.len() {
        let k = lemma_deletion_at(places, plans, front, dir, d);
        assert(all[k] == before[k] && all[k + 1] == before[k + 1]);
        k
    } else {
        lemma_kept_by_place(places, plans, duplicates[d]);
        assert(all[before.len() as int] == one[0]);
        assert(all[before.len() as int + 1] == one[1]);
        before.len() as int
    }
}

/// Whether the resolved path of a file is that of no original.
pub open spec fn stands_apart(places: PlaceTable, plans: Seq<PlanView>) -> spec_fn(Seq<u8>) -> bool {
    |path: Seq<u8>|
        forall|j: int|
            0 <= j < plans.len() ==> components(place_of(places, (#[trigger] plans[j]).original))
                != components(place_of(places, path))
}

spec fn is_deletion() -> spec_fn(ActionView) -> bool {
    |a: ActionView| a is DeleteSource
}

spec fn deletion() -> spec_fn(Seq<u8>) -> ActionView {
    |path: Seq<u8>| ActionView::DeleteSource(path)
}

proof fn lemma_group_deletions(
    places: PlaceTable,
    plans: Seq<PlanView>,
    duplicates: Seq<Seq<u8>>,
    dir: Seq<u8>,
)
    ensures
        delete_actions(places, plans, duplicates, dir).filter(is_deletion()) == duplicates.filter(
            stands_apart(places, plans),
        ).map_values(deletion()),
    decreases duplicates.len(),
{
    reveal(Seq::filter);
    let p = is_deletion();
    let q = stands_apart(places, plans);
    let f = deletion();
    if duplicates.len() > 0 {
        let front = duplicates.drop_last();
        let last = duplicates.last();
        let before = delete_actions(places, plans, front, dir);
        let one = delete_one(places, plans, last, dir);
        lemma_group_deletions(places, plans, front, dir);
        Seq::filter_distributes_over_add(before, one, p);
        lemma_kept_by_place(places, plans, last);
        if q(last) {
            assert(one =~= seq![ActionView::DeleteSource(last)].push(
                ActionView::RemoveLinks(last, dir),
            ));
            assert(one.drop_last() =~= seq![ActionView::DeleteSource(last)]);
            lemma_filter_all(seq![ActionView::DeleteSource(last)], p);
            assert(one.filter(p) =~= seq![ActionView::DeleteSource(last)]);
            assert(duplicates.filter(q) == front.filter(q).push(last));
        } else {
            assert(is_kept(places, plans, last));
            assert(one =~= Seq::empty());
            assert(one.filter(p) =~= Seq::empty());
            assert(duplicates.filter(q) == front.filter(q));
        }
        assert(delete_actions(places, plans, duplicates, dir).filter(p) =~= duplicates.filter(
            q,
        ).map_values(f));
    } else {
        assert(duplicates.filter(q).map_values(f) =~= Seq::empty());
    }
}

proof fn lemma_deletions_upto(
    places: PlaceTable,
    plans: Seq<PlanView>,
    output: Seq<u8>,
    n: int,
)
    requires
        0 <= n <= plans.len(),
    ensures
        actions_upto(places, plans, output, true, n).filter(is_deletion()) == Seq::new(
            n as nat,
            |i: int|
                plans[i].duplicates.filter(stands_apart(places, plans)).map_values(deletion()),
        ).flatten(),
    decreases n,
{
    let p = is_deletion();
    let g = |i: int| plans[i].duplicates.filter(stands_apart(places, plans)).map_values(deletion());
    let parts = Seq::new(n as nat, g);
    if n == 0 {
        lemma_filter_none(seq![ActionView::CreateDir(output)], p);
        assert(parts.flatten() =~= Seq::empty());
    } else {
        let i = n - 1;
        let before = Seq::new(i as nat, g);
        let dir = duplicates_dir(output, i);
        let links = link_actions(plans[i], output, i);
        let gone = delete_actions(places, plans, plans[i].duplicates, dir);
        let end = seq![ActionView::RemoveEmptyDir(dir)];
        lemma_deletions_upto(places, plans, output, i);
        lemma_group_deletions(places, plans, plans[i].duplicates, dir);
        lemma_filter_none(links, p);
        lemma_filter_none(end, p);
        assert(group_actions(places, plans, output, true, i) =~= links + (gone + end));
        Seq::filter_distributes_over_add(links, gone + end, p);
        Seq::filter_distributes_over_add(gone, end, p);
        assert(group_actions(places, plans, output, true, i).filter(p) =~= g(i));
        Seq::filter_distributes_over_add(
            actions_upto(places, plans, output, true, i),
            group_actions(places, plans, output, true, i),
            p,
        );
        assert(parts =~= before.push(g(i)));
        before.lemma_flatten_push(g(i));
    }
}

/// With deletion, the files that are deleted are, group by group, the duplicates whose
/// resolved path is that of no original, each as often as it is among the duplicates.
/// Without deletion none is deleted.
pub proof fn lemma_every_duplicate_is_deleted(
    places: PlaceTable,
    plans: Seq<PlanView>,
    output: OutputDir,
)
    ensures
        all_actions(places, plans, output, true).filter(|a: ActionView| a is DeleteSource)
            == Seq::new(
            plans.len(),
            |i: int|
                plans[i].duplicates.filter(
                    |path: Seq<u8>|
                        forall|j: int|
                            0 <= j < plans.len() ==> components(
                                place_of(places, (#[trigger] plans[j]).original),
                            ) != components(place_of(places, path)),
                ).map_values(|path: Seq<u8>| ActionView::DeleteSource(path)),
        ).flatten(),
{
    let p = |a: ActionView| a is DeleteSource;
    assert(p =~= is_deletion());
    let q = |path: Seq<u8>|
        forall|j: int|
            0 <= j < plans.len() ==> components(place_of(places, (#[trigger] plans[j]).original))
                != components(place_of(places, path));
    assert(q =~= stands_apart(places, plans));
    let f = |path: Seq<u8>| ActionView::DeleteSource(path);
    assert(f =~= deletion());
    let body = actions_upto(places, plans, output.path@, true, plans.len() as int);
    let end = last_actions(places, plans, output, true);
    lemma_deletions_upto(places, plans, output.path@, plans.len() as int);
    lemma_filter_none(end, p);
    Seq::filter_distributes_over_add(body, end, p);
    assert(body.filter(p) + Seq::<ActionView>::empty() =~= body.filter(p));
    assert(Seq::new(
        plans.len(),
        |i: int| plans[i].duplicates.filter(stands_apart(places, plans)).map_values(deletion()),
    ) =~= Seq::new(plans.len(), |i: int| plans[i].duplicates.filter(q).map_values(f)));
}

/// Whether a file may be lost with the output directory: its resolved path is that of a
/// duplicate, or it is the report of an earlier run in its place.
pub open spec fn may_go(
    places: PlaceTable,
    plans: Seq<PlanView>,
    output: OutputDir,
    file: Seq<u8>,
) -> bool {
    ||| exists|p: int, d: int|
        #![trigger plans[p].duplicates[d]]
        0 <= p < plans.len() && 0 <= d < plans[p].duplicates.len() && components(
            place_of(places, plans[p].duplicates[d]),
        ) == components(file)
    ||| components(file) == components(join(output.place@, encode_utf8("duplicate_report.txt"@)))
        && output.report is Some && is_report(output.report->0@)
}

/// Whether nothing that must stay lies in the output directory, told of every original,
/// every file that was searched, and everything in the directory that is no directory and
/// no link.
pub open spec fn nothing_must_stay(
    places: PlaceTable,
    plans: Seq<PlanView>,
    output: OutputDir,
) -> bool {
    &&& forall|j: int|
        0 <= j < plans.len() ==> !components(output.place@).is_prefix_of(
            components(place_of(places, (#[trigger] plans[j]).original)),
        )
    &&& forall|i: int|
        0 <= i < output.searched@.len() && components(output.place@).is_prefix_of(
            components((#[trigger] output.searched@[i])@),
        ) ==> may_go(places, plans, output, output.searched@[i]@)
    &&& forall|i: int|
        0 <= i < output.inside@.len() && !((#[trigger] output.inside@[i]).kind is Dir)
            && !(output.inside@[i].kind is Link) && components(output.place@).is_prefix_of(
            components(output.inside@[i].path@),
        ) ==> may_go(places, plans, output, output.inside@[i].path@)
}

proof fn lemma_duplicate_spot(places: PlaceTable, plans: Seq<PlanView>, n: int, spot: Seq<u8>)
    requires
        0 <= n <= plans.len(),
    ensures
        stands_at(duplicate_spots(places, plans, n), spot) <==> exists|p: int, d: int|
            #![trigger plans[p].duplicates[d]]
            0 <= p < n && 0 <= d < plans[p].duplicates.len() && components(
                place_of(places, plans[p].duplicates[d]),
            ) == components(spot),
    decreases n,
{
    if n > 0 {
        lemma_duplicate_spot(places, plans, n - 1, spot);
        let front = duplicate_spots(places, plans, n - 1);
        let all = duplicate_spots(places, plans, n);
        let dups = plans[n - 1].duplicates;
        if stands_at(all, spot) {
            let m = choose|m: int| 0 <= m < all.len() && same_path(#[trigger] all[m], spot);
            if m < front.len() {
                assert(same_path(front[m], spot));
            } else {
                let d = m - front.len();
                assert(all[m] == place_of(places, dups[d]));
                assert(components(place_of(places, plans[n - 1].duplicates[d])) == components(spot));
            }
        }
        if exists|p: int, d: int|
            #![trigger plans[p].duplicates[d]]
            0 <= p < n && 0 <= d < plans[p].duplicates.len() && components(
                place_of(places, plans[p].duplicates[d]),
            ) == components(spot) {
            let (p, d) = choose|p: int, d: int|
                #![trigger plans[p].duplicates[d]]
                0 <= p < n && 0 <= d < plans[p].duplicates.len() && components(
                    place_of(places, plans[p].duplicates[d]),
                ) == components(spot);
            if p < n - 1 {
                assert(stands_at(front, spot));
                let m = choose|m: int| 0 <= m < front.len() && same_path(#[trigger] front[m], spot);
                assert(all[m] == front[m]);
            } else {
                assert(all[front.len() + d] == place_of(places, dups[d]));
                assert(same_path(all[front.len() + d], spot));
            }
        }
    }
}

proof fn lemma_counted_has(inside: Seq<Inside>, i: int)
    requires
        0 <= i < inside.len(),
        !(inside[i].kind is Dir),
        !(inside[i].kind is Link),
    ensures
        counted(inside).contains(inside[i].path@),
    decreases inside.len(),
{
    let front = inside.drop_last();
    let all = counted(inside);
    if i < front.len() {
        lemma_counted_has(front, i);
        let m = choose|m: int|
            0 <= m < counted(front).len() && counted(front)[m] == inside[i].path@;
        assert(all[m] == inside[i].path@);
    } else {
        assert(counts(inside[i]));
        assert(all[all.len() - 1] == inside[i].path@);
    }
}

proof fn lemma_counted_from(inside: Seq<Inside>, m: int) -> (i: int)
    requires
        0 <= m < counted(inside).len(),
    ensures
        0 <= i < inside.len(),
        !(inside[i].kind is Dir),
        !(inside[i].kind is Link),
        inside[i].path@ == counted(inside)[m],
    decreases inside.len(),
{
    let front = inside.drop_last();
    if m < counted(front).len() {
        lemma_counted_from(front, m)
    } else {
        inside.len() - 1
    }
}

proof fn lemma_nothing_must_stay(places: PlaceTable, plans: Seq<PlanView>, output: OutputDir)
    ensures
        holds_nothing_else(places, plans, output) <==> nothing_must_stay(places, plans, output),
{
    let n = plans.len() as int;
    let stake = files_at_stake(output);
    let searched = path_views(output.searched@);
    let spots = original_spots(places, plans);
    let place = output.place@;
    assert forall|file: Seq<u8>|
        #![trigger may_go(places, plans, output, file)]
        may_go(places, plans, output, file) <==> stands_at(
            duplicate_spots(places, plans, n),
            file,
        ) || same_path(file, report_path(place)) && has_earlier_report(output) by {
        lemma_duplicate_spot(places, plans, n, file);
    }
    if holds_nothing_else(places, plans, output) {
        assert forall|j: int| 0 <= j < plans.len() implies !components(place).is_prefix_of(
            components(place_of(places, (#[trigger] plans[j]).original)),
        ) by {
            assert(!path_starts_with(spots[j], place));
        }
        assert forall|i: int|
            0 <= i < output.searched@.len() && components(place).is_prefix_of(
                components((#[trigger] output.searched@[i])@),
            ) implies may_go(places, plans, output, output.searched@[i]@) by {
            assert(stake[i] == output.searched@[i]@);
            assert(path_starts_with(stake[i], place));
        }
        assert forall|i: int|
            0 <= i < output.inside@.len() && !((#[trigger] output.inside@[i]).kind is Dir)
                && !(output.inside@[i].kind is Link) && components(place).is_prefix_of(
                components(output.inside@[i].path@),
            ) implies may_go(places, plans, output, output.inside@[i].path@) by {
            lemma_counted_has(output.inside@, i);
            let path = output.inside@[i].path@;
            let list = counted(output.inside@);
            let m = choose|m: int| 0 <= m < list.len() && list[m] == path;
            assert(stake[searched.len() + m] == path);
            assert(path_starts_with(stake[searched.len() + m], place));
        }
    }
    if nothing_must_stay(places, plans, output) {
        assert forall|i: int| 0 <= i < plans.len() implies !path_starts_with(
            #[trigger] spots[i],
            place,
        ) by {
            assert(!components(place).is_prefix_of(
                components(place_of(places, plans[i].original)),
            ));
        }
        assert forall|i: int|
            0 <= i < stake.len() && path_starts_with(#[trigger] stake[i], place) implies may_go(
            places,
            plans,
            output,
            stake[i],
        ) by {
            if i < searched.len() {
                assert(stake[i] == output.searched@[i]@);
            } else {
                let k = lemma_counted_from(output.inside@, i - searched.len());
                assert(stake[i] == output.inside@[k].path@);
            }
        }
        assert forall|i: int|
            0 <= i < stake.len() && path_starts_with(#[trigger] stake[i], place) implies {
            ||| stands_at(duplicate_spots(places, plans, n), stake[i])
            ||| same_path(stake[i], report_path(place)) && has_earlier_report(output)
        } by {
            assert(may_go(places, plans, output, stake[i]));
        }
    }
}

proof fn lemma_body_ends_nothing(
    places: PlaceTable,
    plans: Seq<PlanView>,
    output: Seq<u8>,
    delete: bool,
    n: int,
)
    requires
        0 <= n <= plans.len(),
    ensures
        forall|k: int|
            0 <= k < actions_upto(places, plans, output, delete, n).len() ==> {
                let a = #[trigger] actions_upto(places, plans, output, delete, n)[k];
                !(a is RemoveTree) && !(a is WriteReport)
            },
    decreases n,
{
    if n > 0 {
        let i = n - 1;
        let before = actions_upto(places, plans, output, delete, i);
        let all = actions_upto(places, plans, output, delete, n);
        let here = group_actions(places, plans, output, delete, i);
        let links = link_actions(plans[i], output, i);
        let dir = duplicates_dir(output, i);
        let gone = delete_actions(places, plans, plans[i].duplicates, dir);
        lemma_body_ends_nothing(places, plans, output, delete, i);
        lemma_deletions_are_no_links(places, plans, plans[i].duplicates, dir);
        assert forall|k: int| 0 <= k < all.len() implies {
            let a = #[trigger] all[k];
            !(a is RemoveTree) && !(a is WriteReport)
        } by {
            if k < before.len() {
                assert(all[k] == before[k]);
            } else {
                let m = k - before.len();
                assert(all[k] == here[m]);
                if m < links.len() {
                    assert(here[m] == links[m]);
                } else if m < links.len() + gone.len() {
                    assert(here[m] == gone[m - links.len()]);
                }
            }
        }
    }
}

/// With deletion, the output directory is taken away exactly where nothing that must stay
/// lies in it, and that is then the last thing to be done. Without deletion it stays.
pub proof fn lemma_output_is_taken_away(
    places: PlaceTable,
    plans: Seq<PlanView>,
    output: OutputDir,
    delete: bool,
)
    ensures
        ({
            let all = all_actions(places, plans, output, delete);
            &&& delete && nothing_must_stay(places, plans, output) ==> all.last()
                == ActionView::RemoveTree(output.path@)
            &&& forall|k: int|
                0 <= k < all.len() && (#[trigger] all[k]) is RemoveTree ==> delete
                    && nothing_must_stay(places, plans, output) && k == all.len() - 1
        }),
{
    let n = plans.len() as int;
    let all = all_actions(places, plans, output, delete);
    let body = actions_upto(places, plans, output.path@, delete, n);
    let end = last_actions(places, plans, output, delete);
    lemma_nothing_must_stay(places, plans, output);
    lemma_body_ends_nothing(places, plans, output.path@, delete, n);
    assert forall|k: int| 0 <= k < all.len() && (#[trigger] all[k]) is RemoveTree implies delete
        && nothing_must_stay(places, plans, output) && k == all.len() - 1 by {
        if k < body.len() {
            assert(all[k] == body[k]);
        } else {
            assert(all[k] == end[k - body.len()]);
        }
    }
    if delete && nothing_must_stay(places, plans, output) {
        assert(all.last() == end.last());
    }
}

/// Whether the report may be written: no file that was searched and nothing in the output
/// directory is in its place but the report of an earlier run, and, where duplicates are
/// deleted, no original is.
pub open spec fn report_may_be_written(
    places: PlaceTable,
    plans: Seq<PlanView>,
    output: OutputDir,
    delete: bool,
) -> bool {
    let spot = components(join(output.place@, encode_utf8("duplicate_report.txt"@)));
    let earlier = output.report is Some && is_report(output.report->0@);
    &&& forall|i: int|
        0 <= i < output.searched@.len() && components((#[trigger] output.searched@[i])@) == spot
            ==> earlier
    &&& forall|i: int|
        0 <= i < output.inside@.len() && components((#[trigger] output.inside@[i]).path@) == spot
            ==> earlier && output.inside@[i].kind is File
    &&& delete ==> forall|j: int|
        0 <= j < plans.len() ==> components(place_of(places, (#[trigger] plans[j]).original))
            != spot
}

proof fn lemma_may_be_written(
    places: PlaceTable,
    plans: Seq<PlanView>,
    output: OutputDir,
    delete: bool,
)
    ensures
        report_may_be_written(places, plans, output, delete) <==> writes_report(
            places,
            plans,
            output,
            delete,
        ),
{
    let spots = original_spots(places, plans);
    let spot = report_path(output.place@);
    if writes_report(places, plans, output, delete) {
        assert forall|i: int|
            0 <= i < output.searched@.len() && components((#[trigger] output.searched@[i])@)
                == components(spot) implies has_earlier_report(output) by {
            assert(same_path(output.searched@[i]@, spot));
        }
        assert forall|i: int|
            0 <= i < output.inside@.len() && components((#[trigger] output.inside@[i]).path@)
                == components(spot) implies has_earlier_report(output)
            && output.inside@[i].kind is File by {
            assert(same_path(output.inside@[i].path@, spot));
        }
        if delete {
            assert forall|j: int| 0 <= j < plans.len() implies components(
                place_of(places, (#[trigger] plans[j]).original),
            ) != components(spot) by {
                assert(!same_path(spots[j], spot));
            }
        }
    }
    if report_may_be_written(places, plans, output, delete) {
        assert(report_is_free(output));
        if delete && stands_at(spots, spot) {
            let j = choose|j: int| 0 <= j < spots.len() && same_path(#[trigger] spots[j], spot);
            assert(components(place_of(places, plans[j].original)) == components(spot));
        }
    }
}

/// The report is written exactly where it may be, once, into the output directory, and
/// after all else but the taking away of the directory.
pub proof fn lemma_report_is_written(
    places: PlaceTable,
    plans: Seq<PlanView>,
    output: OutputDir,
    delete: bool,
)
    ensures
        ({
            let all = all_actions(places, plans, output, delete);
            let n = all.len() as int;
            let report = ActionView::WriteReport(
                join(output.path@, encode_utf8("duplicate_report.txt"@)),
            );
            &&& report_may_be_written(places, plans, output, delete) ==> n > 1 && (all[n - 1]
                == report || all[n - 2] == report && all[n - 1] is RemoveTree)
            &&& forall|k: int|
                0 <= k < n && (#[trigger] all[k]) is WriteReport ==> report_may_be_written(
                    places,
                    plans,
                    output,
                    delete,
                ) && all[k] == report && (k == n - 1 || k == n - 2 && all[n - 1] is RemoveTree)
        }),
{
    let all = all_actions(places, plans, output, delete);
    let n = all.len() as int;
    let body = actions_upto(places, plans, output.path@, delete, plans.len() as int);
    let end = last_actions(places, plans, output, delete);
    lemma_body_ends_nothing(places, plans, output.path@, delete, plans.len() as int);
    lemma_begins(places, plans, output.path@, delete, plans.len() as int);
    lemma_may_be_written(places, plans, output, delete);
    assert forall|k: int| 0 <= k < n && (#[trigger] all[k]) is WriteReport implies k >= body.len() by {
        if k < body.len() {
            assert(all[k] == body[k]);
        }
    }
    assert forall|k: int| body.len() <= k < n implies #[trigger] all[k] == end[k - body.len()] by {}
    if writes_report(places, plans, output, delete) {
        assert(end[0] is WriteReport);
        assert(all[body.len() as int] == end[0]);
    }
}

/// What is done for a duplicate where duplicates are deleted: nothing where its resolved
/// path is that of an original, else it is deleted, and the links to it are taken away.
pub open spec fn deletion_of(
    places: PlaceTable,
    plans: Seq<PlanView>,
    path: Seq<u8>,
    dir: Seq<u8>,
) -> Seq<ActionView> {
    if forall|j: int|
        0 <= j < plans.len() ==> components(place_of(places, (#[trigger] plans[j]).original))
            != components(place_of(places, path)) {
        seq![ActionView::DeleteSource(path), ActionView::RemoveLinks(path, dir)]
    } else {
        Seq::empty()
    }
}

/// What is done for the group at place `i`: two directories, a link to the original, and
/// one to each duplicate; and, where duplicates are deleted, what is done for each of
/// them, and the directory of the links to them is taken away if it is empty.
pub open spec fn done_for_group(
    places: PlaceTable,
    plans: Seq<PlanView>,
    output: Seq<u8>,
    delete: bool,
    i: int,
) -> Seq<ActionView> {
    let dir = duplicates_dir(output, i);
    seq![
        ActionView::CreateDir(original_dir(output, i)),
        ActionView::CreateDir(dir),
        ActionView::Link(plans[i].original, original_dir(output, i)),
    ] + plans[i].duplicates.map_values(|path: Seq<u8>| ActionView::Link(path, dir)) + if delete {
        plans[i].duplicates.map_values(
            |path: Seq<u8>| deletion_of(places, plans, path, dir),
        ).flatten().push(ActionView::RemoveEmptyDir(dir))
    } else {
        Seq::empty()
    }
}

proof fn lemma_deletions(
    places: PlaceTable,
    plans: Seq<PlanView>,
    duplicates: Seq<Seq<u8>>,
    dir: Seq<u8>,
)
    ensures
        delete_actions(places, plans, duplicates, dir) == duplicates.map_values(
            |path: Seq<u8>| deletion_of(places, plans, path, dir),
        ).flatten(),
    decreases duplicates.len(),
{
    let f = |path: Seq<u8>| deletion_of(places, plans, path, dir);
    if duplicates.len() > 0 {
        let front = duplicates.drop_last();
        let last = duplicates.last();
        lemma_deletions(places, plans, front, dir);
        assert(duplicates.map_values(f) =~= front.map_values(f).push(f(last)));
        front.map_values(f).lemma_flatten_push(f(last));
        lemma_kept_by_place(places, plans, last);
        assert(delete_one(places, plans, last, dir) =~= f(last));
    } else {
        assert(duplicates.map_values(f).flatten() =~= Seq::empty());
    }
}

proof fn lemma_done_for_group(
    places: PlaceTable,
    plans: Seq<PlanView>,
    output: Seq<u8>,
    delete: bool,
    i: int,
)
    ensures
        group_actions(places, plans, output, delete, i) == done_for_group(
            places,
            plans,
            output,
            delete,
            i,
        ),
{
    let dir = duplicates_dir(output, i);
    let dups = plans[i].duplicates;
    lemma_deletions(places, plans, dups, dir);
    lemma_same_links(dups, dir);
    let links = link_actions(plans[i], output, i);
    assert(links + Seq::<ActionView>::empty() =~= links);
}

proof fn lemma_same_links(duplicates: Seq<Seq<u8>>, dir: Seq<u8>)
    ensures
        Seq::new(duplicates.len(), |j: int| ActionView::Link(duplicates[j], dir))
            == duplicates.map_values(|path: Seq<u8>| ActionView::Link(path, dir)),
{
    assert(Seq::new(duplicates.len(), |j: int| ActionView::Link(duplicates[j], dir))
        =~= duplicates.map_values(|path: Seq<u8>| ActionView::Link(path, dir)));
}

proof fn lemma_done_upto(
    places: PlaceTable,
    plans: Seq<PlanView>,
    output: Seq<u8>,
    delete: bool,
    n: int,
)
    requires
        0 <= n <= plans.len(),
    ensures
        actions_upto(places, plans, output, delete, n) == seq![ActionView::CreateDir(output)]
            + Seq::new(
            n as nat,
            |i: int| done_for_group(places, plans, output, delete, i),
        ).flatten(),
    decreases n,
{
    let f = |i: int| done_for_group(places, plans, output, delete, i);
    let parts = Seq::new(n as nat, f);
    let first = seq![ActionView::CreateDir(output)];
    if n == 0 {
        assert(parts.flatten() =~= Seq::empty());
        assert(first + parts.flatten() =~= first);
    } else {
        let before = Seq::new((n - 1) as nat, f);
        lemma_done_upto(places, plans, output, delete, n - 1);
        lemma_done_for_group(places, plans, output, delete, n - 1);
        assert(parts =~= before.push(f(n - 1)));
        before.lemma_flatten_push(f(n - 1));
        assert(first + before.flatten() + f(n - 1) =~= first + parts.flatten());
    }
}

/// All that is done: the output directory is made, what is done for the groups follows,
/// group by group, then the report where it may be written, and in the end, where
/// duplicates are deleted and nothing that must stay lies in it, the output directory is
/// taken away.
pub proof fn lemma_all_that_is_done(
    places: PlaceTable,
    plans: Seq<PlanView>,
    output: OutputDir,
    delete: bool,
)
    ensures
        all_actions(places, plans, output, delete) == seq![ActionView::CreateDir(output.path@)]
            + Seq::new(
            plans.len(),
            |i: int| done_for_group(places, plans, output.path@, delete, i),
        ).flatten() + (if report_may_be_written(places, plans, output, delete) {
            seq![
                ActionView::WriteReport(
                    join(output.path@, encode_utf8("duplicate_report.txt"@)),
                ),
            ]
        } else {
            Seq::empty()
        }) + (if delete && nothing_must_stay(places, plans, output) {
            seq![ActionView::RemoveTree(output.path@)]
        } else {
            Seq::empty()
        }),
{
    lemma_done_upto(places, plans, output.path@, delete, plans.len() as int);
    lemma_may_be_written(places, plans, output, delete);
    lemma_nothing_must_stay(places, plans, output);
    let body = actions_upto(places, plans, output.path@, delete, plans.len() as int);
    let report = if report_may_be_written(places, plans, output, delete) {
        seq![
            ActionView::WriteReport(join(output.path@, encode_utf8("duplicate_report.txt"@))),
        ]
    } else {
        Seq::empty()
    };
    let end = if delete && nothing_must_stay(places, plans, output) {
        seq![ActionView::RemoveTree(output.path@)]
    } else {
        Seq::empty()
    };
    assert(last_actions(places, plans, output, delete) =~= report + end);
    assert(all_actions(places, plans, output, delete) =~= body + report + end);
}

} // verus!
