//! Stable sorting, grouping and lookup of keyed values.

use vstd::prelude::*;

verus! {

/// A type that can be sorted by: each of its values stands for a mathematical
/// value, and those are totally ordered.
pub trait SortKey: Sized {
    /// What a key stands for.
    type Value;

    /// The mathematical value of this key.
    spec fn value(&self) -> Self::Value;

    /// The order of the values.
    spec fn le(a: Self::Value, b: Self::Value) -> bool;

    proof fn le_total(a: Self::Value, b: Self::Value)
        ensures
            Self::le(a, b) || Self::le(b, a),
    ;

    proof fn le_transitive(a: Self::Value, b: Self::Value, c: Self::Value)
        requires
            Self::le(a, b),
            Self::le(b, c),
        ensures
            Self::le(a, c),
    ;

    proof fn le_antisymmetric(a: Self::Value, b: Self::Value)
        requires
            Self::le(a, b),
            Self::le(b, a),
        ensures
            a == b,
    ;

    /// Whether this key does not come after `other`.
    fn at_most(&self, other: &Self) -> (r: bool)
        ensures
            r == Self::le(self.value(), other.value()),
    ;
}

/// The pairs with each key replaced by its mathematical value.
pub open spec fn keyed<K: SortKey, V>(s: Seq<(K, V)>) -> Seq<(K::Value, V)> {
    Seq::new(s.len(), |i: int| (s[i].0.value(), s[i].1))
}

/// The values paired with `k`, in the order of the sequence.
pub open spec fn values_at<A, V>(s: Seq<(A, V)>, k: A) -> Seq<V>
    decreases s.len(),
{
    if s.len() == 0 {
        Seq::empty()
    } else if s.last().0 == k {
        values_at(s.drop_last(), k).push(s.last().1)
    } else {
        values_at(s.drop_last(), k)
    }
}

/// Whether no key comes after a later one.
pub open spec fn sorted<K: SortKey, V>(s: Seq<(K::Value, V)>) -> bool {
    forall|i: int, j: int|
        #![trigger s[i], s[j]]
        0 <= i <= j < s.len() ==> K::le(s[i].0, s[j].0)
}

/// Whether every key comes strictly before the later ones.
pub open spec fn increasing<K: SortKey, V>(s: Seq<(K::Value, V)>) -> bool {
    forall|i: int, j: int|
        #![trigger s[i], s[j]]
        0 <= i < j < s.len() ==> K::le(s[i].0, s[j].0) && s[i].0 != s[j].0
}

/// `x` put behind the last pair whose key does not come after its own.
pub open spec fn insert_pair<K: SortKey, V>(
    s: Seq<(K::Value, V)>,
    x: (K::Value, V),
) -> Seq<(K::Value, V)>
    decreases s.len(),
{
    if s.len() == 0 || K::le(s.last().0, x.0) {
        s.push(x)
    } else {
        insert_pair::<K, V>(s.drop_last(), x).push(s.last())
    }
}

/// The pairs sorted by key; pairs with one key keep their order.
pub open spec fn stable_sort<K: SortKey, V>(s: Seq<(K::Value, V)>) -> Seq<(K::Value, V)>
    decreases s.len(),
{
    if s.len() == 0 {
        s
    } else {
        insert_pair::<K, V>(stable_sort::<K, V>(s.drop_last()), s.last())
    }
}

/// The values at a key of two sequences put together.
pub proof fn lemma_values_at_add<A, V>(s: Seq<(A, V)>, t: Seq<(A, V)>, k: A)
    ensures
        values_at(s + t, k) == values_at(s, k) + values_at(t, k),
    decreases t.len(),
{
    if t.len() == 0 {
        assert(s + t =~= s);
        assert(values_at(s, k) + values_at(t, k) =~= values_at(s, k));
    } else {
        assert((s + t).drop_last() =~= s + t.drop_last());
        lemma_values_at_add(s, t.drop_last(), k);
        assert(values_at(s + t, k) =~= values_at(s, k) + values_at(t, k));
    }
}

proof fn lemma_values_at_one<A, V>(x: (A, V), k: A)
    ensures
        values_at(seq![x], k) == if x.0 == k { seq![x.1] } else { Seq::empty() },
{
    assert(seq![x].drop_last() =~= Seq::empty());
    reveal_with_fuel(values_at, 2);
    assert(values_at(seq![x], k) =~= if x.0 == k { seq![x.1] } else { Seq::empty() });
}

/// A key has values exactly where it occurs.
pub proof fn lemma_values_at_occurs<A, V>(s: Seq<(A, V)>, k: A)
    ensures
        values_at(s, k).len() > 0 <==> exists|i: int| 0 <= i < s.len() && (#[trigger] s[i]).0 == k,
    decreases s.len(),
{
    if s.len() > 0 {
        lemma_values_at_occurs(s.drop_last(), k);
        if s.last().0 == k {
            assert(s[s.len() - 1].0 == k);
        }
        if values_at(s.drop_last(), k).len() > 0 {
            let i = choose|i: int| 0 <= i < s.drop_last().len() && (#[trigger] s.drop_last()[i]).0 == k;
            assert(s[i].0 == k);
        }
        if exists|i: int| 0 <= i < s.len() && (#[trigger] s[i]).0 == k {
            let i = choose|i: int| 0 <= i < s.len() && (#[trigger] s[i]).0 == k;
            if i < s.len() - 1 {
                assert(s.drop_last()[i].0 == k);
            }
        }
    }
}

proof fn lemma_sorted_unique<K: SortKey, V>(a: Seq<(K::Value, V)>, b: Seq<(K::Value, V)>)
    requires
        sorted::<K, V>(a),
        sorted::<K, V>(b),
        forall|k: K::Value| #[trigger] values_at(a, k) == values_at(b, k),
    ensures
        a == b,
    decreases a.len(),
{
    if a.len() == 0 {
        if b.len() > 0 {
            lemma_values_at_occurs(b, b[0].0);
            assert(values_at(a, b[0].0).len() == 0);
        }
        assert(a =~= b);
    } else {
        let x = a.last();
        lemma_values_at_occurs(a, x.0);
        assert(a[a.len() - 1].0 == x.0);
        assert(values_at(b, x.0).len() > 0);
        lemma_values_at_occurs(b, x.0);
        let i = choose|i: int| 0 <= i < b.len() && (#[trigger] b[i]).0 == x.0;
        let y = b.last();
        assert(b[b.len() - 1].0 == y.0);
        lemma_values_at_occurs(b, y.0);
        assert(values_at(a, y.0).len() > 0);
        lemma_values_at_occurs(a, y.0);
        let j = choose|j: int| 0 <= j < a.len() && (#[trigger] a[j]).0 == y.0;
        K::le_antisymmetric(x.0, y.0);
        assert(values_at(a, x.0).last() == x.1);
        assert(values_at(b, x.0).last() == y.1);
        assert forall|k: K::Value| #[trigger]
            values_at(a.drop_last(), k) == values_at(b.drop_last(), k) by {
            assert(values_at(a, k) == values_at(b, k));
            if k == x.0 {
                assert(values_at(a.drop_last(), k) =~= values_at(a, k).drop_last());
                assert(values_at(b.drop_last(), k) =~= values_at(b, k).drop_last());
            }
        }
        lemma_sorted_unique::<K, V>(a.drop_last(), b.drop_last());
        assert(a =~= a.drop_last().push(x));
        assert(b =~= b.drop_last().push(y));
    }
}

proof fn lemma_insert_pair<K: SortKey, V>(s: Seq<(K::Value, V)>, x: (K::Value, V))
    requires
        sorted::<K, V>(s),
    ensures
        sorted::<K, V>(insert_pair::<K, V>(s, x)),
        insert_pair::<K, V>(s, x).len() == s.len() + 1,
        forall|k: K::Value|
            #![trigger values_at(insert_pair::<K, V>(s, x), k)]
            values_at(insert_pair::<K, V>(s, x), k) == values_at(s.push(x), k),
        forall|i: int|
            0 <= i < insert_pair::<K, V>(s, x).len() ==> {
                let y = #[trigger] insert_pair::<K, V>(s, x)[i];
                y == x || s.contains(y)
            },
    decreases s.len(),
{
    let r = insert_pair::<K, V>(s, x);
    K::le_total(x.0, x.0);
    if s.len() == 0 || K::le(s.last().0, x.0) {
        assert forall|i: int, j: int| 0 <= i <= j < r.len() implies K::le(r[i].0, r[j].0) by {
            if j == s.len() && i < j {
                K::le_transitive(s[i].0, s.last().0, x.0);
            }
        }
    } else {
        let front = s.drop_last();
        let y = s.last();
        let inner = insert_pair::<K, V>(front, x);
        lemma_insert_pair::<K, V>(front, x);
        K::le_total(y.0, x.0);
        K::le_total(y.0, y.0);
        assert forall|i: int, j: int| 0 <= i <= j < r.len() implies K::le(r[i].0, r[j].0) by {
            if j == inner.len() && i < j {
                let z = inner[i];
                if z != x {
                    let m = choose|m: int| 0 <= m < front.len() && front[m] == z;
                    assert(K::le(s[m].0, s[s.len() - 1].0));
                }
            }
        }
        assert forall|k: K::Value| #![trigger values_at(r, k)] values_at(r, k) == values_at(s.push(x), k) by {
            assert(r.drop_last() =~= inner);
            assert(s.push(x).drop_last() =~= s);
            assert(front.push(x).drop_last() =~= front);
            assert(values_at(inner, k) == values_at(front.push(x), k));
            assert(values_at(s, k) == if y.0 == k {
                values_at(front, k).push(y.1)
            } else {
                values_at(front, k)
            });
        }
        assert forall|i: int| 0 <= i < r.len() implies {
            let z = #[trigger] r[i];
            z == x || s.contains(z)
        } by {
            if i < inner.len() {
                let z = inner[i];
                if z != x {
                    let m = choose|m: int| 0 <= m < front.len() && front[m] == z;
                    assert(s[m] == z);
                }
            } else {
                assert(s[s.len() - 1] == y);
            }
        }
    }
}

/// Sorting orders the keys, leaves the values of each key in their order, and adds
/// no pair.
pub proof fn lemma_stable_sort<K: SortKey, V>(s: Seq<(K::Value, V)>)
    ensures
        sorted::<K, V>(stable_sort::<K, V>(s)),
        stable_sort::<K, V>(s).len() == s.len(),
        forall|k: K::Value| #[trigger]
            values_at(stable_sort::<K, V>(s), k) == values_at(s, k),
        forall|i: int| 0 <= i < s.len() ==> s.contains(#[trigger] stable_sort::<K, V>(s)[i]),
    decreases s.len(),
{
    if s.len() > 0 {
        let front = stable_sort::<K, V>(s.drop_last());
        lemma_stable_sort::<K, V>(s.drop_last());
        lemma_insert_pair::<K, V>(front, s.last());
        assert forall|k: K::Value| #[trigger]
            values_at(stable_sort::<K, V>(s), k) == values_at(s, k) by {
            assert(front.push(s.last()).drop_last() =~= front);
            assert(values_at(front, k) == values_at(s.drop_last(), k));
        }
        assert forall|i: int| 0 <= i < s.len() implies s.contains(
            #[trigger] stable_sort::<K, V>(s)[i],
        ) by {
            let y = stable_sort::<K, V>(s)[i];
            if y == s.last() {
                assert(s[s.len() - 1] == y);
            } else {
                let j = choose|j: int| 0 <= j < front.len() && front[j] == y;
                let m = choose|m: int| 0 <= m < s.drop_last().len() && s.drop_last()[m] == front[j];
                assert(s[m] == y);
            }
        }
    }
}

proof fn lemma_keyed_add<K: SortKey, V>(s: Seq<(K, V)>, t: Seq<(K, V)>)
    ensures
        keyed(s + t) == keyed(s) + keyed(t),
{
    assert(keyed(s + t) =~= keyed(s) + keyed(t));
}

/// Merges two sorted vectors; of equal keys those of `a` come first.
fn merge<K: SortKey, V>(a: Vec<(K, V)>, b: Vec<(K, V)>) -> (r: Vec<(K, V)>)
    requires
        sorted::<K, V>(keyed(a@)),
        sorted::<K, V>(keyed(b@)),
    ensures
        sorted::<K, V>(keyed(r@)),
        forall|k: K::Value| #[trigger]
            values_at(keyed(r@), k) == values_at(keyed(a@), k) + values_at(keyed(b@), k),
{
    let ghost a0 = keyed(a@);
    let ghost b0 = keyed(b@);
    let mut a = a;
    let mut b = b;
    let mut backwards: Vec<(K, V)> = Vec::new();
    let ghost mut tail: Seq<(K::Value, V)> = Seq::empty();
    assert(keyed(backwards@) =~= tail.reverse());
    while a.len() > 0 || b.len() > 0
        invariant
            sorted::<K, V>(keyed(a@)),
            sorted::<K, V>(keyed(b@)),
            sorted::<K, V>(tail),
            keyed(backwards@) =~= tail.reverse(),
            forall|i: int, j: int|
                0 <= i < a@.len() && 0 <= j < tail.len() ==> K::le(
                    #[trigger] keyed(a@)[i].0,
                    (#[trigger] tail[j]).0,
                ),
            forall|i: int, j: int|
                0 <= i < b@.len() && 0 <= j < tail.len() ==> K::le(
                    #[trigger] keyed(b@)[i].0,
                    (#[trigger] tail[j]).0,
                ),
            forall|k: K::Value| #[trigger]
                values_at(a0, k) + values_at(b0, k) == values_at(keyed(a@), k) + values_at(
                    keyed(b@),
                    k,
                ) + values_at(tail, k),
        decreases a@.len() + b@.len(),
    {
        let from_a = if a.len() == 0 {
            false
        } else if b.len() == 0 {
            true
        } else {
            !a[a.len() - 1].0.at_most(&b[b.len() - 1].0)
        };
        let ghost ka = keyed(a@);
        let ghost kb = keyed(b@);
        let ghost t0 = tail;
        let popped = if from_a { a.pop() } else { b.pop() };
        if let Some(pair) = popped {
            let ghost x = (pair.0.value(), pair.1);
            proof {
                K::le_total(x.0, x.0);
                if from_a {
                    assert(x == ka.last());
                    assert(keyed(a@) =~= ka.drop_last());
                    assert forall|i: int| 0 <= i < kb.len() implies K::le(#[trigger] kb[i].0, x.0)
                        && kb[i].0 != x.0 by {
                        K::le_total(x.0, kb.last().0);
                        assert(K::le(kb[i].0, kb.last().0));
                        K::le_transitive(kb[i].0, kb.last().0, x.0);
                        if kb[i].0 == x.0 {
                            assert(false);
                        }
                    }
                } else {
                    assert(x == kb.last());
                    assert(keyed(b@) =~= kb.drop_last());
                    assert forall|i: int| 0 <= i < ka.len() implies K::le(#[trigger] ka[i].0, x.0) by {
                        assert(K::le(ka[i].0, ka.last().0));
                        K::le_transitive(ka[i].0, ka.last().0, x.0);
                    }
                }
                tail = seq![x] + tail;
                assert forall|k: K::Value| #[trigger]
                    values_at(a0, k) + values_at(b0, k) == values_at(keyed(a@), k) + values_at(
                        keyed(b@),
                        k,
                    ) + values_at(tail, k) by {
                    lemma_values_at_add(seq![x], t0, k);
                    lemma_values_at_one(x, k);
                    lemma_values_at_occurs(kb, k);
                    assert(values_at(a0, k) + values_at(b0, k) == values_at(ka, k) + values_at(
                        kb,
                        k,
                    ) + values_at(t0, k));
                    if from_a && k == x.0 {
                        assert(values_at(kb, k).len() == 0);
                        assert(values_at(kb, k) =~= Seq::empty());
                    }
                    assert(values_at(a0, k) + values_at(b0, k) =~= values_at(keyed(a@), k)
                        + values_at(keyed(b@), k) + values_at(tail, k));
                }
            }
            let ghost before = keyed(backwards@);
            backwards.push(pair);
            assert(tail.reverse() =~= t0.reverse().push(x));
            assert(keyed(backwards@) =~= before.push(x));
        }
    }
    assert forall|k: K::Value| #[trigger]
        values_at(tail, k) == values_at(a0, k) + values_at(b0, k) by {
        assert(values_at(a0, k) + values_at(b0, k) == values_at(keyed(a@), k) + values_at(
            keyed(b@),
            k,
        ) + values_at(tail, k));
        assert(values_at(keyed(a@), k) + values_at(keyed(b@), k) + values_at(tail, k)
            =~= values_at(tail, k));
    }
    let mut r: Vec<(K, V)> = Vec::new();
    while backwards.len() > 0
        invariant
            tail.len() == r@.len() + backwards@.len(),
            keyed(backwards@) =~= tail.skip(r@.len() as int).reverse(),
            keyed(r@) =~= tail.take(r@.len() as int),
        decreases backwards@.len(),
    {
        let ghost left = keyed(backwards@);
        if let Some(pair) = backwards.pop() {
            assert(left.last() == (pair.0.value(), pair.1));
            assert(left.last() == tail[r@.len() as int]);
            r.push(pair);
            assert(keyed(backwards@) =~= left.drop_last());
        }
    }
    assert(keyed(r@) =~= tail);
    r
}

/// Sorts by key; pairs with one key keep their order.
pub fn sort_by_key<K: SortKey, V>(pairs: Vec<(K, V)>) -> (r: Vec<(K, V)>)
    ensures
        keyed(r@) == stable_sort::<K, V>(keyed(pairs@)),
    decreases pairs@.len(),
{
    let ghost whole = pairs@;
    let mut front = pairs;
    if front.len() <= 1 {
        proof {
            lemma_stable_sort::<K, V>(keyed(whole));
            if whole.len() == 1 {
                K::le_total(keyed(whole)[0].0, keyed(whole)[0].0);
            }
            lemma_sorted_unique::<K, V>(keyed(whole), stable_sort::<K, V>(keyed(whole)));
        }
        return front;
    }
    let mid: usize = front.len() / 2;
    let back = front.split_off(mid);
    let ghost f = front@;
    let ghost b = back@;
    assert(whole =~= f + b);
    let front = sort_by_key(front);
    let back = sort_by_key(back);
    proof {
        lemma_stable_sort::<K, V>(keyed(f));
        lemma_stable_sort::<K, V>(keyed(b));
    }
    let r = merge(front, back);
    proof {
        lemma_keyed_add(f, b);
        lemma_stable_sort::<K, V>(keyed(whole));
        assert forall|k: K::Value| #[trigger]
            values_at(keyed(r@), k) == values_at(stable_sort::<K, V>(keyed(whole)), k) by {
            lemma_values_at_add(keyed(f), keyed(b), k);
            assert(values_at(keyed(r@), k) == values_at(stable_sort::<K, V>(keyed(f)), k)
                + values_at(stable_sort::<K, V>(keyed(b)), k));
        }
        lemma_sorted_unique::<K, V>(keyed(r@), stable_sort::<K, V>(keyed(whole)));
    }
    r
}

/// Neighbouring pairs with one key joined into one group.
pub open spec fn runs<A, V>(s: Seq<(A, V)>) -> Seq<(A, Seq<V>)>
    decreases s.len(),
{
    if s.len() == 0 {
        Seq::empty()
    } else {
        let front = runs(s.drop_last());
        let x = s.last();
        if front.len() > 0 && front.last().0 == x.0 {
            front.drop_last().push((x.0, front.last().1.push(x.1)))
        } else {
            front.push((x.0, seq![x.1]))
        }
    }
}

/// The values grouped by key, the keys in order, the values of one key in the
/// order of the pairs.
pub open spec fn grouped<K: SortKey, V>(s: Seq<(K::Value, V)>) -> Seq<(K::Value, Seq<V>)> {
    runs(stable_sort::<K, V>(s))
}

/// The groups of more than one value.
pub open spec fn shared<A, V>(groups: Seq<(A, Seq<V>)>) -> Seq<(A, Seq<V>)> {
    groups.filter(|g: (A, Seq<V>)| g.1.len() > 1)
}

/// What a vector of groups stands for.
pub open spec fn keyed_groups<K: SortKey, V>(s: Seq<(K, Vec<V>)>) -> Seq<(K::Value, Seq<V>)> {
    Seq::new(s.len(), |i: int| (s[i].0.value(), s[i].1@))
}

proof fn lemma_runs<K: SortKey, V>(s: Seq<(K::Value, V)>)
    requires
        sorted::<K, V>(s),
    ensures
        increasing::<K, Seq<V>>(runs(s)),
        forall|i: int|
            0 <= i < runs(s).len() ==> (#[trigger] runs(s)[i]).1 == values_at(s, runs(s)[i].0)
                && runs(s)[i].1.len() > 0,
        s.len() > 0 ==> runs(s).len() > 0 && runs(s).last().0 == s.last().0,
        forall|k: K::Value|
            #![trigger values_at(s, k)]
            values_at(s, k).len() > 0 ==> exists|j: int|
                0 <= j < runs(s).len() && (#[trigger] runs(s)[j]).0 == k,
    decreases s.len(),
{
    if s.len() > 0 {
        let x = s.last();
        let front = s.drop_last();
        let rf = runs(front);
        let r = runs(s);
        lemma_runs::<K, V>(front);
        let joined = rf.len() > 0 && rf.last().0 == x.0;
        if joined {
            assert(r =~= rf.drop_last().push((x.0, rf.last().1.push(x.1))));
            assert(rf[rf.len() - 1] == rf.last());
        } else {
            assert(r =~= rf.push((x.0, seq![x.1])));
            lemma_values_at_occurs(front, x.0);
            if values_at(front, x.0).len() > 0 {
                let m = choose|m: int| 0 <= m < front.len() && (#[trigger] front[m]).0 == x.0;
                let l = front.len() - 1;
                assert(K::le(s[m].0, s[l].0));
                assert(K::le(s[l].0, s[s.len() - 1].0));
                K::le_antisymmetric(x.0, s[l].0);
                assert(rf.last().0 == front.last().0);
                assert(false);
            }
            assert(values_at(front, x.0) =~= Seq::empty());
            assert(values_at(s, x.0) =~= seq![x.1]);
        }
        assert forall|i: int| 0 <= i < r.len() implies (#[trigger] r[i]).1 == values_at(s, r[i].0)
            && r[i].1.len() > 0 by {
            if i < r.len() - 1 {
                assert(r[i] == rf[i]);
                if joined {
                    assert(rf[i].0 != rf[rf.len() - 1].0);
                } else if rf[i].0 == x.0 {
                    assert(rf[i].1 == values_at(front, x.0));
                }
            }
        }
        assert forall|i: int, j: int| 0 <= i < j < r.len() implies K::le(r[i].0, r[j].0)
            && r[i].0 != r[j].0 by {
            assert(r[i] == rf[i]);
            if j < r.len() - 1 {
                assert(r[j] == rf[j]);
            } else if joined {
                assert(rf[j].0 == x.0);
            } else {
                lemma_values_at_occurs(front, rf[i].0);
                assert(rf[i].1 == values_at(front, rf[i].0));
                let m = choose|m: int| 0 <= m < front.len() && (#[trigger] front[m]).0 == rf[i].0;
                assert(K::le(s[m].0, s[s.len() - 1].0));
            }
        }
        assert forall|k: K::Value|
            #![trigger values_at(s, k)]
            values_at(s, k).len() > 0 implies exists|j: int|
            0 <= j < r.len() && (#[trigger] r[j]).0 == k by {
            if k == x.0 {
                assert(r[r.len() - 1].0 == k);
            } else {
                assert(values_at(front, k).len() > 0);
                let j = choose|j: int| 0 <= j < rf.len() && (#[trigger] rf[j]).0 == k;
                assert(r[j] == rf[j]);
            }
        }
    }
}

/// Grouping gives each key that occurs one group, which holds all its values in
/// their order, and puts the groups in the order of their keys.
pub proof fn lemma_grouped<K: SortKey, V>(s: Seq<(K::Value, V)>)
    ensures
        increasing::<K, Seq<V>>(grouped::<K, V>(s)),
        forall|i: int|
            0 <= i < grouped::<K, V>(s).len() ==> (#[trigger] grouped::<K, V>(s)[i]).1 == values_at(
                s,
                grouped::<K, V>(s)[i].0,
            ) && grouped::<K, V>(s)[i].1.len() > 0,
        forall|k: K::Value|
            #![trigger values_at(s, k)]
            values_at(s, k).len() > 0 ==> exists|j: int|
                0 <= j < grouped::<K, V>(s).len() && (#[trigger] grouped::<K, V>(s)[j]).0 == k,
{
    lemma_stable_sort::<K, V>(s);
    lemma_runs::<K, V>(stable_sort::<K, V>(s));
    let g = grouped::<K, V>(s);
    assert forall|i: int| 0 <= i < g.len() implies (#[trigger] g[i]).1 == values_at(s, g[i].0)
        && g[i].1.len() > 0 by {
        assert(values_at(stable_sort::<K, V>(s), g[i].0) == values_at(s, g[i].0));
    }
    assert forall|k: K::Value|
        #![trigger values_at(s, k)]
        values_at(s, k).len() > 0 implies exists|j: int|
        0 <= j < g.len() && (#[trigger] g[j]).0 == k by {
        assert(values_at(stable_sort::<K, V>(s), k) == values_at(s, k));
    }
}

/// Groups the values by key.
pub fn group_by_key<K: SortKey, V>(pairs: Vec<(K, V)>) -> (r: Vec<(K, Vec<V>)>)
    ensures
        keyed_groups(r@) == grouped::<K, V>(keyed(pairs@)),
{
    let ghost given = keyed(pairs@);
    let pairs = sort_by_key(pairs);
    let ghost s = keyed(pairs@);
    let mut r: Vec<(K, Vec<V>)> = Vec::new();
    let mut open: Option<(K, Vec<V>)> = None;
    proof {
        assert(s.take(0) =~= Seq::empty());
        assert(keyed_groups(r@) =~= Seq::empty());
    }
    for pair in it: pairs
        invariant
            it.seq() == pairs@,
            s == keyed(pairs@),
            s == stable_sort::<K, V>(given),
            match open {
                Some(g) => runs(s.take(it.index() as int)) == keyed_groups(r@).push(
                    (g.0.value(), g.1@),
                ),
                None => keyed_groups(r@).len() == 0 && runs(s.take(it.index() as int)).len() == 0,
            },
    {
        let ghost n = it.index() as int;
        let ghost front = runs(s.take(n));
        let ghost x = (pair.0.value(), pair.1);
        proof {
            assert(s[n] == x);
            assert(s.take(n + 1).drop_last() =~= s.take(n));
            assert(s.take(n + 1).last() == x);
            lemma_stable_sort::<K, V>(given);
            lemma_runs::<K, V>(s.take(n));
        }
        let (key, value) = pair;
        let mut values: Vec<V> = Vec::new();
        let ghost closed = keyed_groups(r@);
        match open {
            Some((open_key, open_values)) => {
                proof {
                    assert(front.last() == (open_key.value(), open_values@));
                    if n > 0 {
                        assert(s.take(n).last() == s[n - 1]);
                        assert(K::le(s[n - 1].0, s[n].0));
                    }
                }
                if key.at_most(&open_key) {
                    proof {
                        K::le_antisymmetric(key.value(), open_key.value());
                        assert(front.drop_last() =~= closed);
                    }
                    values = open_values;
                } else {
                    proof {
                        K::le_total(key.value(), key.value());
                    }
                    r.push((open_key, open_values));
                    assert(keyed_groups(r@) =~= closed.push((open_key.value(), open_values@)));
                }
            },
            None => {},
        }
        values.push(value);
        proof {
            assert(runs(s.take(n + 1)) =~= keyed_groups(r@).push((key.value(), values@)));
        }
        open = Some((key, values));
    }
    assert(s.take(s.len() as int) =~= s);
    if let Some(last) = open {
        let ghost closed = keyed_groups(r@);
        r.push(last);
        assert(keyed_groups(r@) =~= closed.push((last.0.value(), last.1@)));
    } else {
        assert(keyed_groups(r@) =~= runs(s));
    }
    r
}

/// Groups the values by key and keeps the groups of more than one value.
pub fn shared_by_key<K: SortKey, V>(pairs: Vec<(K, V)>) -> (r: Vec<(K, Vec<V>)>)
    ensures
        keyed_groups(r@) == shared(grouped::<K, V>(keyed(pairs@))),
{
    let groups = group_by_key(pairs);
    let ghost all = keyed_groups(groups@);
    let mut r: Vec<(K, Vec<V>)> = Vec::new();
    proof {
        reveal(Seq::filter);
        assert(all.take(0) =~= Seq::empty());
        assert(keyed_groups(r@) =~= shared(all.take(0)));
    }
    for group in it: groups
        invariant
            it.seq() == groups@,
            all == keyed_groups(groups@),
            keyed_groups(r@) == shared(all.take(it.index() as int)),
    {
        let ghost n = it.index() as int;
        let ghost before = keyed_groups(r@);
        proof {
            reveal(Seq::filter);
            assert(all[n] == (group.0.value(), group.1@));
            assert(all.take(n + 1).drop_last() =~= all.take(n));
        }
        if group.1.len() > 1 {
            r.push(group);
            assert(keyed_groups(r@) =~= before.push((group.0.value(), group.1@)));
        }
    }
    assert(all.take(all.len() as int) =~= all);
    r
}

/// The groups of more than one value among `groups` are those of its groups that
/// hold more than one value.
pub proof fn lemma_shared<A, V>(groups: Seq<(A, Seq<V>)>)
    ensures
        forall|g: (A, Seq<V>)| #[trigger]
            shared(groups).contains(g) <==> groups.contains(g) && g.1.len() > 1,
    decreases groups.len(),
{
    reveal(Seq::filter);
    if groups.len() > 0 {
        let front = groups.drop_last();
        lemma_shared(front);
        assert forall|g: (A, Seq<V>)| #[trigger] shared(groups).contains(g) <==> groups.contains(g)
            && g.1.len() > 1 by {
            assert(groups =~= front.push(groups.last()));
            if shared(groups).contains(g) {
                let i = choose|i: int| 0 <= i < shared(groups).len() && shared(groups)[i] == g;
                if i < shared(front).len() {
                    assert(shared(front)[i] == g);
                    assert(shared(front).contains(g));
                    let j = choose|j: int| 0 <= j < front.len() && front[j] == g;
                    assert(groups[j] == g);
                } else {
                    assert(groups[groups.len() - 1] == g);
                }
            }
            if groups.contains(g) && g.1.len() > 1 {
                let i = choose|i: int| 0 <= i < groups.len() && groups[i] == g;
                if i < front.len() {
                    assert(front[i] == g);
                    assert(shared(front).contains(g));
                    let j = choose|j: int| 0 <= j < shared(front).len() && shared(front)[j] == g;
                    assert(shared(groups)[j] == g);
                } else {
                    assert(shared(groups)[shared(groups).len() - 1] == g);
                }
            }
        }
    }
}

/// The pairs with a function applied to each value.
pub open spec fn map_pairs<A, V, W>(s: Seq<(A, V)>, f: spec_fn(V) -> W) -> Seq<(A, W)> {
    Seq::new(s.len(), |i: int| (s[i].0, f(s[i].1)))
}

/// The groups with a function applied to each value.
pub open spec fn map_groups<A, V, W>(s: Seq<(A, Seq<V>)>, f: spec_fn(V) -> W) -> Seq<(A, Seq<W>)> {
    Seq::new(s.len(), |i: int| (s[i].0, s[i].1.map_values(f)))
}

proof fn lemma_insert_map<K: SortKey, V, W>(
    s: Seq<(K::Value, V)>,
    x: (K::Value, V),
    f: spec_fn(V) -> W,
)
    ensures
        map_pairs(insert_pair::<K, V>(s, x), f) == insert_pair::<K, W>(
            map_pairs(s, f),
            (x.0, f(x.1)),
        ),
    decreases s.len(),
{
    if s.len() == 0 || K::le(s.last().0, x.0) {
        assert(map_pairs(s.push(x), f) =~= map_pairs(s, f).push((x.0, f(x.1))));
    } else {
        lemma_insert_map::<K, V, W>(s.drop_last(), x, f);
        assert(map_pairs(s, f).drop_last() =~= map_pairs(s.drop_last(), f));
        let inner = insert_pair::<K, V>(s.drop_last(), x);
        assert(map_pairs(inner.push(s.last()), f) =~= map_pairs(inner, f).push(
            map_pairs(s, f).last(),
        ));
    }
}

/// Sorting does not look at the values.
pub proof fn lemma_sort_map<K: SortKey, V, W>(s: Seq<(K::Value, V)>, f: spec_fn(V) -> W)
    ensures
        map_pairs(stable_sort::<K, V>(s), f) == stable_sort::<K, W>(map_pairs(s, f)),
    decreases s.len(),
{
    if s.len() == 0 {
        assert(map_pairs(s, f) =~= Seq::empty());
    } else {
        lemma_sort_map::<K, V, W>(s.drop_last(), f);
        assert(map_pairs(s, f).drop_last() =~= map_pairs(s.drop_last(), f));
        lemma_insert_map::<K, V, W>(stable_sort::<K, V>(s.drop_last()), s.last(), f);
    }
}

proof fn lemma_runs_map<A, V, W>(s: Seq<(A, V)>, f: spec_fn(V) -> W)
    ensures
        map_groups(runs(s), f) == runs(map_pairs(s, f)),
    decreases s.len(),
{
    if s.len() == 0 {
        assert(map_groups(runs(s), f) =~= runs(map_pairs(s, f)));
    } else {
        lemma_runs_map(s.drop_last(), f);
        let front = runs(s.drop_last());
        let x = s.last();
        let m = map_pairs(s, f);
        assert(m.drop_last() =~= map_pairs(s.drop_last(), f));
        assert(m.last() == (x.0, f(x.1)));
        if front.len() > 0 && front.last().0 == x.0 {
            assert(front.last().1.push(x.1).map_values(f) =~= front.last().1.map_values(f).push(
                f(x.1),
            ));
            assert(map_groups(runs(s), f) =~= runs(m));
        } else {
            assert(seq![x.1].map_values(f) =~= seq![f(x.1)]);
            assert(map_groups(runs(s), f) =~= runs(m));
        }
    }
}

proof fn lemma_shared_map<A, V, W>(groups: Seq<(A, Seq<V>)>, f: spec_fn(V) -> W)
    ensures
        map_groups(shared(groups), f) == shared(map_groups(groups, f)),
    decreases groups.len(),
{
    reveal(Seq::filter);
    let m = map_groups(groups, f);
    if groups.len() == 0 {
        assert(map_groups(shared(groups), f) =~= shared(m));
    } else {
        lemma_shared_map(groups.drop_last(), f);
        assert(m.drop_last() =~= map_groups(groups.drop_last(), f));
        assert(map_groups(shared(groups), f) =~= shared(m));
    }
}

/// Grouping does not look at the values.
pub proof fn lemma_grouped_map<K: SortKey, V, W>(s: Seq<(K::Value, V)>, f: spec_fn(V) -> W)
    ensures
        map_groups(grouped::<K, V>(s), f) == grouped::<K, W>(map_pairs(s, f)),
        map_groups(shared(grouped::<K, V>(s)), f) == shared(grouped::<K, W>(map_pairs(s, f))),
{
    lemma_sort_map::<K, V, W>(s, f);
    lemma_runs_map(stable_sort::<K, V>(s), f);
    lemma_shared_map(grouped::<K, V>(s), f);
}

/// How many pairs have a value for which `p` holds.
pub open spec fn count_values<A, V>(s: Seq<(A, V)>, p: spec_fn(V) -> bool) -> nat
    decreases s.len(),
{
    if s.len() == 0 {
        0
    } else {
        count_values(s.drop_last(), p) + if p(s.last().1) {
            1nat
        } else {
            0
        }
    }
}

proof fn lemma_insert_count<K: SortKey, V>(
    s: Seq<(K::Value, V)>,
    x: (K::Value, V),
    p: spec_fn(V) -> bool,
)
    ensures
        count_values(insert_pair::<K, V>(s, x), p) == count_values(s, p) + if p(x.1) {
            1nat
        } else {
            0
        },
    decreases s.len(),
{
    if s.len() == 0 || K::le(s.last().0, x.0) {
        assert(s.push(x).drop_last() =~= s);
    } else {
        lemma_insert_count::<K, V>(s.drop_last(), x, p);
        let inner = insert_pair::<K, V>(s.drop_last(), x);
        assert(inner.push(s.last()).drop_last() =~= inner);
    }
}

/// Sorting loses nothing and adds nothing: as many values as before have any
/// property.
pub proof fn lemma_sort_count<K: SortKey, V>(s: Seq<(K::Value, V)>, p: spec_fn(V) -> bool)
    ensures
        count_values(stable_sort::<K, V>(s), p) == count_values(s, p),
    decreases s.len(),
{
    if s.len() > 0 {
        lemma_sort_count::<K, V>(s.drop_last(), p);
        lemma_insert_count::<K, V>(stable_sort::<K, V>(s.drop_last()), s.last(), p);
    }
}

/// Two places with a property make it count at least twice.
pub proof fn lemma_count_two<A, V>(s: Seq<(A, V)>, p: spec_fn(V) -> bool, i: int, j: int)
    requires
        0 <= i < j < s.len(),
        p(s[i].1),
        p(s[j].1),
    ensures
        count_values(s, p) >= 2,
    decreases s.len(),
{
    if j < s.len() - 1 {
        lemma_count_two(s.drop_last(), p, i, j);
    } else {
        lemma_count_one(s.drop_last(), p, i);
    }
}

/// A place with a property makes it count at least once.
pub proof fn lemma_count_one<A, V>(s: Seq<(A, V)>, p: spec_fn(V) -> bool, i: int)
    requires
        0 <= i < s.len(),
        p(s[i].1),
    ensures
        count_values(s, p) >= 1,
    decreases s.len(),
{
    if i < s.len() - 1 {
        lemma_count_one(s.drop_last(), p, i);
    }
}

/// A property that counts has a place.
pub proof fn lemma_count_found<A, V>(s: Seq<(A, V)>, p: spec_fn(V) -> bool) -> (i: int)
    requires
        count_values(s, p) >= 1,
    ensures
        0 <= i < s.len(),
        p(s[i].1),
    decreases s.len(),
{
    if p(s.last().1) {
        s.len() - 1
    } else {
        lemma_count_found(s.drop_last(), p)
    }
}

/// A property that counts twice has two places.
pub proof fn lemma_count_found_two<A, V>(s: Seq<(A, V)>, p: spec_fn(V) -> bool) -> (r: (int, int))
    requires
        count_values(s, p) >= 2,
    ensures
        0 <= r.0 < r.1 < s.len(),
        p(s[r.0].1),
        p(s[r.1].1),
    decreases s.len(),
{
    if p(s.last().1) {
        (lemma_count_found(s.drop_last(), p), s.len() - 1)
    } else {
        lemma_count_found_two(s.drop_last(), p)
    }
}

/// The value that was paired with `k` last.
pub open spec fn latest<A, V>(s: Seq<(A, V)>, k: A) -> Option<V> {
    if values_at(s, k).len() == 0 {
        None
    } else {
        Some(values_at(s, k).last())
    }
}

proof fn lemma_increasing_values<K: SortKey, V>(s: Seq<(K::Value, V)>, i: int)
    requires
        increasing::<K, V>(s),
        0 <= i < s.len(),
    ensures
        values_at(s, s[i].0) == seq![s[i].1],
    decreases s.len(),
{
    let k = s[i].0;
    let front = s.drop_last();
    if i == s.len() - 1 {
        lemma_values_at_occurs(front, k);
        if values_at(front, k).len() > 0 {
            let m = choose|m: int| 0 <= m < front.len() && (#[trigger] front[m]).0 == k;
            assert(s[m].0 != s[i].0);
        }
        assert(values_at(s, k) =~= seq![s[i].1]);
    } else {
        assert(front[i] == s[i]);
        assert(s[i].0 != s[s.len() - 1].0);
        lemma_increasing_values::<K, V>(front, i);
    }
}

proof fn lemma_values_at_from<A, V>(s: Seq<(A, V)>, k: A, i: int)
    requires
        0 <= i < values_at(s, k).len(),
    ensures
        s.contains((k, values_at(s, k)[i])),
    decreases s.len(),
{
    let front = s.drop_last();
    let v = values_at(s, k)[i];
    if s.last().0 == k && i == values_at(s, k).len() - 1 {
        assert(s[s.len() - 1] == (k, v));
    } else {
        lemma_values_at_from(front, k, i);
        let j = choose|j: int| 0 <= j < front.len() && front[j] == (k, v);
        assert(s[j] == (k, v));
    }
}

/// The values at a key are those that are paired with it.
pub proof fn lemma_values_at_contains<A, V>(s: Seq<(A, V)>, k: A)
    ensures
        forall|v: V| #[trigger] values_at(s, k).contains(v) <==> s.contains((k, v)),
    decreases s.len(),
{
    let all = values_at(s, k);
    assert forall|v: V| #[trigger] all.contains(v) <==> s.contains((k, v)) by {
        if all.contains(v) {
            let i = choose|i: int| 0 <= i < all.len() && all[i] == v;
            lemma_values_at_from(s, k, i);
        }
        if s.contains((k, v)) {
            let i = choose|i: int| 0 <= i < s.len() && s[i] == (k, v);
            let front = s.drop_last();
            if i == s.len() - 1 {
                assert(all[all.len() - 1] == v);
            } else {
                assert(front[i] == (k, v));
                lemma_values_at_contains(front, k);
                assert(values_at(front, k).contains(v));
                let j = choose|j: int| 0 <= j < values_at(front, k).len() && values_at(front, k)[j] == v;
                assert(all[j] == v);
            }
        }
    }
}

/// A key that has more than one value is the key of a shared group, which holds its
/// values.
pub proof fn lemma_shared_group<K: SortKey, V>(s: Seq<(K::Value, V)>, k: K::Value)
    requires
        values_at(s, k).len() > 1,
    ensures
        shared(grouped::<K, V>(s)).contains((k, values_at(s, k))),
{
    let all = grouped::<K, V>(s);
    lemma_grouped::<K, V>(s);
    lemma_shared(all);
    let j = choose|j: int| 0 <= j < all.len() && (#[trigger] all[j]).0 == k;
    assert(all[j] == (k, values_at(s, k)));
    assert(all.contains(all[j]));
}

/// A shared group holds the values of its key, which are more than one.
pub proof fn lemma_shared_values<K: SortKey, V>(
    s: Seq<(K::Value, V)>,
    group: (K::Value, Seq<V>),
)
    requires
        shared(grouped::<K, V>(s)).contains(group),
    ensures
        group.1 == values_at(s, group.0),
        group.1.len() > 1,
{
    let all = grouped::<K, V>(s);
    lemma_grouped::<K, V>(s);
    lemma_shared(all);
    let j = choose|j: int| 0 <= j < all.len() && all[j] == group;
    assert(all[j].1 == values_at(s, all[j].0));
}

/// The value that was paired with a key last was paired with it; there is one where
/// the key occurs.
pub proof fn lemma_latest<A, V>(s: Seq<(A, V)>, k: A)
    ensures
        match latest(s, k) {
            Some(v) => s.contains((k, v)),
            None => forall|i: int| 0 <= i < s.len() ==> (#[trigger] s[i]).0 != k,
        },
{
    if latest(s, k) is Some {
        lemma_values_at_from(s, k, values_at(s, k).len() - 1);
    } else {
        lemma_values_at_occurs(s, k);
    }
}

/// Mapping the values maps the one that was paired with a key last.
pub proof fn lemma_latest_map<A, V, W>(s: Seq<(A, V)>, k: A, f: spec_fn(V) -> W)
    ensures
        latest(map_pairs(s, f), k) == match latest(s, k) {
            Some(v) => Some(f(v)),
            None => None,
        },
{
    lemma_values_at_map(s, k, f);
}

proof fn lemma_values_at_map<A, V, W>(s: Seq<(A, V)>, k: A, f: spec_fn(V) -> W)
    ensures
        values_at(map_pairs(s, f), k) == values_at(s, k).map_values(f),
    decreases s.len(),
{
    if s.len() > 0 {
        lemma_values_at_map(s.drop_last(), k, f);
        assert(map_pairs(s, f).drop_last() =~= map_pairs(s.drop_last(), f));
    }
    assert(values_at(map_pairs(s, f), k) =~= values_at(s, k).map_values(f));
}

/// A map from keys to values, kept as pairs in the order of their keys.
pub struct Table<K: SortKey, V> {
    entries: Vec<(K, V)>,
}

impl<K: SortKey, V> Table<K, V> {
    #[verifier::type_invariant]
    spec fn in_order(self) -> bool {
        increasing::<K, V>(keyed(self.entries@))
    }

    /// The pairs of the table, in the order of their keys.
    pub closed spec fn view(&self) -> Seq<(K::Value, V)> {
        keyed(self.entries@)
    }

    /// The value of a key.
    pub open spec fn find(&self, k: K::Value) -> Option<V> {
        latest(self@, k)
    }

    /// The table of the pairs; of several values for one key the last one stays.
    pub fn from_pairs(pairs: Vec<(K, V)>) -> (r: Self)
        ensures
            increasing::<K, V>(r@),
            forall|k: K::Value| #[trigger] r.find(k) == latest(keyed(pairs@), k),
    {
        let ghost given = keyed(pairs@);
        let groups = group_by_key(pairs);
        let ghost all = keyed_groups(groups@);
        let mut entries: Vec<(K, V)> = Vec::new();
        proof {
            lemma_grouped::<K, V>(given);
        }
        for group in it: groups
            invariant
                it.seq() == groups@,
                all == keyed_groups(groups@),
                forall|i: int| 0 <= i < all.len() ==> (#[trigger] all[i]).1.len() > 0,
                entries@.len() == it.index(),
                forall|i: int|
                    0 <= i < it.index() ==> #[trigger] keyed(entries@)[i] == (
                        all[i].0,
                        all[i].1.last(),
                    ),
        {
            let ghost n = it.index() as int;
            let ghost before = keyed(entries@);
            assert(all[n] == (group.0.value(), group.1@));
            let (key, values) = group;
            let mut values = values;
            if let Some(value) = values.pop() {
                entries.push((key, value));
                assert(keyed(entries@) =~= before.push((all[n].0, all[n].1.last())));
            }
        }
        let ghost e = keyed(entries@);
        proof {
            assert forall|i: int, j: int|
                #![trigger e[i], e[j]]
                0 <= i < j < e.len() implies K::le(e[i].0, e[j].0) && e[i].0 != e[j].0 by {
                assert(all[i].0 != all[j].0);
            }
            assert forall|k: K::Value| #[trigger] latest(e, k) == latest(given, k) by {
                lemma_values_at_occurs(e, k);
                if values_at(given, k).len() > 0 {
                    let j = choose|j: int| 0 <= j < all.len() && (#[trigger] all[j]).0 == k;
                    assert(e[j].0 == k);
                    lemma_increasing_values::<K, V>(e, j);
                } else if values_at(e, k).len() > 0 {
                    let j = choose|j: int| 0 <= j < e.len() && (#[trigger] e[j]).0 == k;
                    assert(all[j].1 == values_at(given, k));
                }
            }
        }
        let r = Table { entries };
        assert forall|k: K::Value| #[trigger] r.find(k) == latest(given, k) by {
            assert(latest(e, k) == latest(given, k));
        }
        r
    }

    /// The value of `key`, if it has one.
    pub fn get(&self, key: &K) -> (r: Option<&V>)
        ensures
            r == match self.find(key.value()) {
                Some(v) => Some(&v),
                None => None,
            },
    {
        proof {
            use_type_invariant(self);
        }
        let ghost e = self@;
        let ghost k = key.value();
        let mut low: usize = 0;
        let mut high: usize = self.entries.len();
        while low < high
            invariant
                e == keyed(self.entries@),
                e == self@,
                k == key.value(),
                increasing::<K, V>(e),
                low <= high <= e.len(),
                forall|i: int| 0 <= i < low ==> (#[trigger] e[i]).0 != k,
                forall|i: int| high <= i < e.len() ==> (#[trigger] e[i]).0 != k,
            decreases high - low,
        {
            let mid: usize = low + (high - low) / 2;
            let before = key.at_most(&self.entries[mid].0);
            let after = self.entries[mid].0.at_most(key);
            assert(e[mid as int] == (self.entries@[mid as int].0.value(), self.entries@[mid as int].1));
            if before && after {
                proof {
                    K::le_antisymmetric(k, e[mid as int].0);
                    lemma_increasing_values::<K, V>(e, mid as int);
                }
                return Some(&self.entries[mid].1);
            }
            if before {
                proof {
                    assert forall|i: int| mid <= i < e.len() implies (#[trigger] e[i]).0 != k by {
                        if i > mid {
                            assert(K::le(e[mid as int].0, e[i].0));
                        }
                    }
                }
                high = mid;
            } else {
                proof {
                    K::le_total(k, e[mid as int].0);
                    assert forall|i: int| 0 <= i <= mid implies (#[trigger] e[i]).0 != k by {
                        if i < mid {
                            assert(K::le(e[i].0, e[mid as int].0));
                        }
                    }
                }
                low = mid + 1;
            }
        }
        proof {
            lemma_values_at_occurs(e, k);
        }
        None
    }
}

proof fn lemma_pairs_at<A, V>(s: Seq<(A, V)>, k: A)
    ensures
        s.filter(|p: (A, V)| p.0 == k) == values_at(s, k).map_values(|v: V| (k, v)),
    decreases s.len(),
{
    reveal(Seq::filter);
    let p = |p: (A, V)| p.0 == k;
    let f = |v: V| (k, v);
    if s.len() > 0 {
        lemma_pairs_at(s.drop_last(), k);
        if p(s.last()) {
            assert(values_at(s, k).map_values(f) =~= values_at(s.drop_last(), k).map_values(f).push(
                s.last(),
            ));
        }
    } else {
        assert(values_at(s, k).map_values(f) =~= Seq::empty());
    }
}

/// Sorting puts no pair behind one with a greater key, and the pairs of each key stay as
/// they were: the same ones, as often, and in the same order.
pub proof fn lemma_sorting<K: SortKey, V>(s: Seq<(K::Value, V)>, k: K::Value)
    ensures
        stable_sort::<K, V>(s).len() == s.len(),
        forall|i: int, j: int|
            #![trigger stable_sort::<K, V>(s)[i], stable_sort::<K, V>(s)[j]]
            0 <= i < j < s.len() ==> K::le(
                stable_sort::<K, V>(s)[i].0,
                stable_sort::<K, V>(s)[j].0,
            ),
        stable_sort::<K, V>(s).filter(|p: (K::Value, V)| p.0 == k) == s.filter(
            |p: (K::Value, V)| p.0 == k,
        ),
{
    let r = stable_sort::<K, V>(s);
    lemma_stable_sort::<K, V>(s);
    lemma_pairs_at(r, k);
    lemma_pairs_at(s, k);
    assert(values_at(r, k) == values_at(s, k));
}

/// Grouping makes one group for each key that occurs, no key comes behind a greater one,
/// and a group holds what is paired with its key: the same values, as often, and in the
/// same order.
pub proof fn lemma_grouping<K: SortKey, V>(s: Seq<(K::Value, V)>)
    ensures
        forall|i: int, j: int|
            #![trigger grouped::<K, V>(s)[i], grouped::<K, V>(s)[j]]
            0 <= i < j < grouped::<K, V>(s).len() ==> K::le(
                grouped::<K, V>(s)[i].0,
                grouped::<K, V>(s)[j].0,
            ) && grouped::<K, V>(s)[i].0 != grouped::<K, V>(s)[j].0,
        forall|i: int|
            0 <= i < grouped::<K, V>(s).len() ==> {
                let g = #[trigger] grouped::<K, V>(s)[i];
                g.1.len() > 0 && g.1.map_values(|v: V| (g.0, v)) == s.filter(
                    |p: (K::Value, V)| p.0 == g.0,
                )
            },
        forall|i: int|
            0 <= i < s.len() ==> exists|j: int|
                0 <= j < grouped::<K, V>(s).len() && (#[trigger] grouped::<K, V>(s)[j]).0 == (
                #[trigger] s[i]).0,
{
    let g = grouped::<K, V>(s);
    lemma_grouped::<K, V>(s);
    assert forall|i: int| 0 <= i < g.len() implies {
        let x = #[trigger] g[i];
        x.1.len() > 0 && x.1.map_values(|v: V| (x.0, v)) == s.filter(
            |p: (K::Value, V)| p.0 == x.0,
        )
    } by {
        lemma_pairs_at(s, g[i].0);
    }
    assert forall|i: int| 0 <= i < s.len() implies exists|j: int|
        0 <= j < g.len() && (#[trigger] g[j]).0 == (#[trigger] s[i]).0 by {
        lemma_values_at_occurs(s, s[i].0);
    }
}

/// Of several values of one key the last one counts, and a key that does not occur has
/// none.
pub proof fn lemma_last_counts<A, V>(s: Seq<(A, V)>, k: A, i: int)
    ensures
        0 <= i < s.len() && s[i].0 == k && (forall|j: int|
            i < j < s.len() ==> (#[trigger] s[j]).0 != k) ==> latest(s, k) == Some(s[i].1),
        (forall|j: int| 0 <= j < s.len() ==> (#[trigger] s[j]).0 != k) ==> latest(s, k) is None,
    decreases s.len(),
{
    if s.len() > 0 {
        let front = s.drop_last();
        let last = s.len() - 1;
        lemma_last_counts(front, k, i);
        if 0 <= i < s.len() && s[i].0 == k && (forall|j: int|
            i < j < s.len() ==> (#[trigger] s[j]).0 != k) && i < last {
            assert forall|j: int| i < j < front.len() implies (#[trigger] front[j]).0 != k by {
                assert(s[j].0 != k);
            }
            assert(s[last].0 != k);
            assert(front[i] == s[i]);
        }
        if forall|j: int| 0 <= j < s.len() ==> (#[trigger] s[j]).0 != k {
            assert forall|j: int| 0 <= j < front.len() implies (#[trigger] front[j]).0 != k by {
                assert(s[j].0 != k);
            }
            assert(s[last].0 != k);
        }
    }
}

} // verus!
