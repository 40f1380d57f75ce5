//! Values grouped under text keys, groups kept in key order: the ordered
//! maps (`BTreeMap<String, Vec<_>>`) of the summaries, and sorted sets of
//! text without repeats.

use vstd::prelude::*;
use crate::text::{
    precedes, lemma_precedes_strict_total, lemma_precedes_transitive, text_precedes, same_chars,
};

verus! {

/// `gs` with `v` added to the group of key `k`: appended to that group's
/// values when the key is there, else in a new group placed before the
/// first larger key.
pub open spec fn group_insert<V>(gs: Seq<(Seq<char>, Seq<V>)>, k: Seq<char>, v: V) -> Seq<
    (Seq<char>, Seq<V>),
>
    decreases gs.len(),
{
    if gs.len() == 0 {
        seq![(k, seq![v])]
    } else if gs[0].0 == k {
        seq![(k, gs[0].1.push(v))] + gs.drop_first()
    } else if precedes(k, gs[0].0) {
        seq![(k, seq![v])] + gs
    } else {
        seq![gs[0]] + group_insert(gs.drop_first(), k, v)
    }
}

/// The entries `(key, value)` grouped by key, in the order in which they
/// are added: what a `BTreeMap` of keys to vectors of values holds after
/// `entry(key).or_default().push(value)` for each entry in turn.
pub open spec fn grouped<V>(es: Seq<(Seq<char>, V)>) -> Seq<(Seq<char>, Seq<V>)>
    decreases es.len(),
{
    if es.len() == 0 {
        seq![]
    } else {
        group_insert(grouped(es.drop_last()), es.last().0, es.last().1)
    }
}

/// `xs` with `x` added, before the first larger text, unless it is there.
pub open spec fn set_insert(xs: Seq<Seq<char>>, x: Seq<char>) -> Seq<Seq<char>>
    decreases xs.len(),
{
    if xs.len() == 0 {
        seq![x]
    } else if xs[0] == x {
        xs
    } else if precedes(x, xs[0]) {
        seq![x] + xs
    } else {
        seq![xs[0]] + set_insert(xs.drop_first(), x)
    }
}

/// The texts of `xs` sorted, each once (`sort` then `dedup`).
pub open spec fn sorted_set(xs: Seq<Seq<char>>) -> Seq<Seq<char>>
    decreases xs.len(),
{
    if xs.len() == 0 {
        seq![]
    } else {
        set_insert(sorted_set(xs.drop_last()), xs.last())
    }
}

/// Keys in strictly increasing order.
pub open spec fn keys_increase<V>(gs: Seq<(Seq<char>, Seq<V>)>) -> bool {
    forall|i: int, j: int| 0 <= i < j < gs.len() ==> precedes(#[trigger] gs[i].0, #[trigger] gs[j].0)
}

/// Texts in strictly increasing order (so none twice).
pub open spec fn increasing(xs: Seq<Seq<char>>) -> bool {
    forall|i: int, j: int| 0 <= i < j < xs.len() ==> precedes(#[trigger] xs[i], #[trigger] xs[j])
}

proof fn lemma_group_insert_skip<V>(gs: Seq<(Seq<char>, Seq<V>)>, k: Seq<char>, v: V, i: int)
    requires
        0 <= i <= gs.len(),
        forall|m: int| 0 <= m < i ==> precedes(#[trigger] gs[m].0, k),
    ensures
        group_insert(gs, k, v) == gs.take(i) + group_insert(gs.skip(i), k, v),
    decreases i,
{
    if i == 0 {
        assert(gs.skip(0) =~= gs);
        assert(gs.take(0) + group_insert(gs, k, v) =~= group_insert(gs, k, v));
    } else {
        lemma_precedes_strict_total(gs[0].0, k);
        let rest = gs.drop_first();
        assert forall|m: int| 0 <= m < i - 1 implies precedes(#[trigger] rest[m].0, k) by {
            assert(rest[m] == gs[m + 1]);
        }
        lemma_group_insert_skip(rest, k, v, i - 1);
        assert(rest.skip(i - 1) =~= gs.skip(i));
        assert(gs.take(i) =~= seq![gs[0]] + rest.take(i - 1));
        assert(gs.take(i) + group_insert(gs.skip(i), k, v) =~= seq![gs[0]] + (rest.take(i - 1)
            + group_insert(rest.skip(i - 1), k, v)));
    }
}

/// Adds `v` to the group of key `k` in `gs`.
pub fn insert_grouped<T: DeepView>(gs: &mut Vec<(Vec<char>, Vec<T>)>, k: Vec<char>, v: T)
    ensures
        final(gs).deep_view() == group_insert(old(gs).deep_view(), k@, v.deep_view()),
{
    let ghost g0 = gs.deep_view();
    let mut i: usize = 0;
    while i < gs.len() && text_precedes(gs[i].0.as_slice(), k.as_slice())
        invariant
            i <= gs.len(),
            gs.deep_view() == g0,
            forall|m: int| 0 <= m < i ==> precedes(#[trigger] g0[m].0, k@),
        decreases gs.len() - i,
    {
        assert(g0[i as int].0 == gs[i as int].0@);
        i = i + 1;
    }
    proof {
        lemma_group_insert_skip(g0, k@, v.deep_view(), i as int);
    }
    if i < gs.len() && same_chars(gs[i].0.as_slice(), k.as_slice()) {
        assert(g0[i as int].0 == gs[i as int].0@);
        assert(g0.skip(i as int)[0] == g0[i as int]);
        let (key, mut items) = gs.remove(i);
        let ghost items0 = items.deep_view();
        assert(items0 == g0[i as int].1);
        items.push(v);
        assert(items.deep_view() =~= items0.push(v.deep_view()));
        gs.insert(i, (key, items));
        assert(group_insert(g0.skip(i as int), k@, v.deep_view()) =~= seq![
            (k@, g0[i as int].1.push(v.deep_view())),
        ] + g0.skip(i + 1));
        assert(gs.deep_view() =~= g0.take(i as int) + seq![
            (k@, g0[i as int].1.push(v.deep_view())),
        ] + g0.skip(i + 1));
    } else {
        if i < gs.len() {
            assert(g0[i as int].0 == gs[i as int].0@);
            proof {
                lemma_precedes_strict_total(g0[i as int].0, k@);
            }
            assert(g0.skip(i as int)[0] == g0[i as int]);
            assert(group_insert(g0.skip(i as int), k@, v.deep_view()) == seq![
                (k@, seq![v.deep_view()]),
            ] + g0.skip(i as int));
        } else {
            assert(g0.skip(i as int) =~= Seq::<(Seq<char>, Seq<T::V>)>::empty());
        }
        let mut one: Vec<T> = Vec::new();
        one.push(v);
        assert(one.deep_view() =~= seq![v.deep_view()]);
        assert(k.deep_view() =~= k@);
        gs.insert(i, (k, one));
        assert(gs.deep_view() =~= g0.take(i as int) + seq![(k@, seq![v.deep_view()])] + g0.skip(
            i as int,
        ));
    }
}

proof fn lemma_set_insert_skip(xs: Seq<Seq<char>>, x: Seq<char>, i: int)
    requires
        0 <= i <= xs.len(),
        forall|m: int| 0 <= m < i ==> precedes(#[trigger] xs[m], x),
    ensures
        set_insert(xs, x) == xs.take(i) + set_insert(xs.skip(i), x),
    decreases i,
{
    if i == 0 {
        assert(xs.skip(0) =~= xs);
        assert(xs.take(0) + set_insert(xs, x) =~= set_insert(xs, x));
    } else {
        lemma_precedes_strict_total(xs[0], x);
        let rest = xs.drop_first();
        assert forall|m: int| 0 <= m < i - 1 implies precedes(#[trigger] rest[m], x) by {
            assert(rest[m] == xs[m + 1]);
        }
        lemma_set_insert_skip(rest, x, i - 1);
        assert(rest.skip(i - 1) =~= xs.skip(i));
        assert(xs.take(i) =~= seq![xs[0]] + rest.take(i - 1));
        assert(xs.take(i) + set_insert(xs.skip(i), x) =~= seq![xs[0]] + (rest.take(i - 1)
            + set_insert(rest.skip(i - 1), x)));
    }
}

/// Adds `x` to the sorted set `xs`.
pub fn insert_sorted(xs: &mut Vec<Vec<char>>, x: Vec<char>)
    ensures
        final(xs).deep_view() == set_insert(old(xs).deep_view(), x@),
{
    let ghost x0 = xs.deep_view();
    let mut i: usize = 0;
    while i < xs.len() && text_precedes(xs[i].as_slice(), x.as_slice())
        invariant
            i <= xs.len(),
            xs.deep_view() == x0,
            forall|m: int| 0 <= m < i ==> precedes(#[trigger] x0[m], x@),
        decreases xs.len() - i,
    {
        assert(x0[i as int] == xs[i as int]@);
        i = i + 1;
    }
    proof {
        lemma_set_insert_skip(x0, x@, i as int);
    }
    if i < xs.len() {
        assert(x0[i as int] == xs[i as int]@);
        assert(x0.skip(i as int)[0] == x0[i as int]);
        proof {
            lemma_precedes_strict_total(x0[i as int], x@);
        }
        if same_chars(xs[i].as_slice(), x.as_slice()) {
            assert(set_insert(x0.skip(i as int), x@) == x0.skip(i as int));
            assert(x0.take(i as int) + x0.skip(i as int) =~= x0);
            return;
        }
        assert(set_insert(x0.skip(i as int), x@) == seq![x@] + x0.skip(i as int));
    } else {
        assert(x0.skip(i as int) =~= Seq::<Seq<char>>::empty());
    }
    assert(x.deep_view() =~= x@);
    xs.insert(i, x);
    assert(xs.deep_view() =~= x0.take(i as int) + seq![x@] + x0.skip(i as int));
}

/// The texts of `items` sorted, each once.
pub fn sorted_set_of(items: &Vec<Vec<char>>) -> (r: Vec<Vec<char>>)
    ensures
        r.deep_view() == sorted_set(items.deep_view()),
{
    let ghost all = items.deep_view();
    let mut r: Vec<Vec<char>> = Vec::new();
    let mut i: usize = 0;
    assert(all.take(0) =~= Seq::<Seq<char>>::empty());
    assert(r.deep_view() =~= Seq::<Seq<char>>::empty());
    while i < items.len()
        invariant
            i <= items.len(),
            all == items.deep_view(),
            r.deep_view() == sorted_set(all.take(i as int)),
        decreases items.len() - i,
    {
        assert(all.take(i + 1).drop_last() =~= all.take(i as int));
        assert(all[i as int] == items[i as int]@);
        insert_sorted(&mut r, items[i].clone());
        i = i + 1;
    }
    assert(all.take(items.len() as int) =~= all);
    r
}

/// Every group holds at least one value.
pub open spec fn groups_nonempty<V>(gs: Seq<(Seq<char>, Seq<V>)>) -> bool {
    forall|i: int| 0 <= i < gs.len() ==> (#[trigger] gs[i]).1.len() >= 1
}

proof fn lemma_group_insert_nonempty<V>(gs: Seq<(Seq<char>, Seq<V>)>, k: Seq<char>, v: V)
    requires
        groups_nonempty(gs),
    ensures
        groups_nonempty(group_insert(gs, k, v)),
        group_insert(gs, k, v).len() >= 1,
    decreases gs.len(),
{
    let r = group_insert(gs, k, v);
    if gs.len() > 0 && gs[0].0 != k && !precedes(k, gs[0].0) {
        let rest = gs.drop_first();
        assert forall|i: int| 0 <= i < rest.len() implies (#[trigger] rest[i]).1.len() >= 1 by {
            assert(rest[i] == gs[i + 1]);
        }
        lemma_group_insert_nonempty(rest, k, v);
        assert forall|i: int| 0 <= i < r.len() implies (#[trigger] r[i]).1.len() >= 1 by {
            if i > 0 {
                assert(r[i] == group_insert(rest, k, v)[i - 1]);
            }
        }
    } else if gs.len() > 0 && gs[0].0 == k {
        assert forall|i: int| 0 <= i < r.len() implies (#[trigger] r[i]).1.len() >= 1 by {
            if i > 0 {
                assert(r[i] == gs[i]);
            }
        }
    } else if gs.len() > 0 {
        assert forall|i: int| 0 <= i < r.len() implies (#[trigger] r[i]).1.len() >= 1 by {
            if i > 0 {
                assert(r[i] == gs[i - 1]);
            }
        }
    }
}

/// Grouping any entries gives groups that each hold a value, and at least
/// one group when there is an entry.
pub proof fn lemma_grouped_nonempty<V>(es: Seq<(Seq<char>, V)>)
    ensures
        groups_nonempty(grouped(es)),
        es.len() > 0 ==> grouped(es).len() > 0,
    decreases es.len(),
{
    if es.len() > 0 {
        lemma_grouped_nonempty(es.drop_last());
        lemma_group_insert_nonempty(grouped(es.drop_last()), es.last().0, es.last().1);
    }
}

/// Each group of `grouped(es)` holds at least one value.
pub proof fn lemma_grouped_members_nonempty<V>(es: Seq<(Seq<char>, V)>, j: int)
    requires
        0 <= j < grouped(es).len(),
    ensures
        grouped(es)[j].1.len() >= 1,
{
    lemma_grouped_nonempty(es);
}

/// Whether `x` is one of `xs`.
pub fn contains_text(xs: &Vec<Vec<char>>, x: &[char]) -> (r: bool)
    ensures
        r == xs.deep_view().contains(x@),
{
    let mut i: usize = 0;
    while i < xs.len()
        invariant
            i <= xs.len(),
            forall|m: int| 0 <= m < i ==> xs.deep_view()[m] != x@,
        decreases xs.len() - i,
    {
        assert(xs.deep_view()[i as int] == xs@[i as int]@);
        if crate::text::same_chars(xs[i].as_slice(), x) {
            return true;
        }
        i = i + 1;
    }
    false
}

/// The values of the group of key `k` in `gs` (the first such group); empty
/// when there is none.
pub open spec fn group_of<V>(gs: Seq<(Seq<char>, Seq<V>)>, k: Seq<char>) -> Seq<V>
    decreases gs.len(),
{
    if gs.len() == 0 {
        seq![]
    } else if gs[0].0 == k {
        gs[0].1
    } else {
        group_of(gs.drop_first(), k)
    }
}

/// The values of the entries of `es` whose key is `k`, in order.
pub open spec fn values_of<V>(es: Seq<(Seq<char>, V)>, k: Seq<char>) -> Seq<V>
    decreases es.len(),
{
    if es.len() == 0 {
        seq![]
    } else if es.last().0 == k {
        values_of(es.drop_last(), k).push(es.last().1)
    } else {
        values_of(es.drop_last(), k)
    }
}

proof fn lemma_group_of_absent<V>(gs: Seq<(Seq<char>, Seq<V>)>, k: Seq<char>)
    requires
        forall|i: int| 0 <= i < gs.len() ==> (#[trigger] gs[i]).0 != k,
    ensures
        group_of(gs, k) == Seq::<V>::empty(),
    decreases gs.len(),
{
    if gs.len() > 0 {
        let rest = gs.drop_first();
        assert forall|i: int| 0 <= i < rest.len() implies (#[trigger] rest[i]).0 != k by {
            assert(rest[i] == gs[i + 1]);
        }
        lemma_group_of_absent(rest, k);
    }
}

proof fn lemma_group_insert_keys<V>(gs: Seq<(Seq<char>, Seq<V>)>, k: Seq<char>, v: V)
    requires
        keys_increase(gs),
    ensures
        keys_increase(group_insert(gs, k, v)),
        group_insert(gs, k, v).len() >= 1,
        forall|i: int|
            0 <= i < group_insert(gs, k, v).len() ==> (#[trigger] group_insert(gs, k, v)[i]).0 == k
                || exists|j: int| 0 <= j < gs.len() && gs[j].0 == group_insert(gs, k, v)[i].0,
        forall|k2: Seq<char>|
            #[trigger] group_of(group_insert(gs, k, v), k2) == if k2 == k {
                group_of(gs, k).push(v)
            } else {
                group_of(gs, k2)
            },
    decreases gs.len(),
{
    let r = group_insert(gs, k, v);
    if gs.len() == 0 {
        assert forall|k2: Seq<char>| #[trigger]
            group_of(r, k2) == if k2 == k {
                group_of(gs, k).push(v)
            } else {
                group_of(gs, k2)
            } by {
            assert(r.drop_first().len() == 0);
            assert(group_of(r.drop_first(), k2) == Seq::<V>::empty());
            assert(group_of(gs, k2) == Seq::<V>::empty());
            assert(group_of(gs, k) == Seq::<V>::empty());
            assert(seq![v] =~= Seq::<V>::empty().push(v));
        }
    } else if gs[0].0 == k {
        assert forall|i: int| 0 <= i < r.len() implies (#[trigger] r[i]).0 == k || exists|j: int|
            0 <= j < gs.len() && gs[j].0 == r[i].0 by {
            assert(r[i].0 == gs[i].0);
        }
        assert forall|i: int, j: int| 0 <= i < j < r.len() implies precedes(
            #[trigger] r[i].0,
            #[trigger] r[j].0,
        ) by {
            assert(r[i].0 == gs[i].0 && r[j].0 == gs[j].0);
        }
        assert forall|k2: Seq<char>| #[trigger]
            group_of(r, k2) == if k2 == k {
                group_of(gs, k).push(v)
            } else {
                group_of(gs, k2)
            } by {
            assert(r.drop_first() =~= gs.drop_first());
        }
    } else if precedes(k, gs[0].0) {
        assert forall|i: int| 0 <= i < r.len() implies (#[trigger] r[i]).0 == k || exists|j: int|
            0 <= j < gs.len() && gs[j].0 == r[i].0 by {
            if i > 0 {
                assert(r[i] == gs[i - 1]);
            }
        }
        assert forall|i: int, j: int| 0 <= i < j < r.len() implies precedes(
            #[trigger] r[i].0,
            #[trigger] r[j].0,
        ) by {
            assert(r[j] == gs[j - 1]);
            if i > 0 {
                assert(r[i] == gs[i - 1]);
            } else if j - 1 > 0 {
                lemma_precedes_transitive(k, gs[0].0, gs[j - 1].0);
            }
        }
        assert forall|m: int| 0 <= m < gs.len() implies (#[trigger] gs[m]).0 != k by {
            lemma_precedes_strict_total(k, gs[0].0);
            if m > 0 {
                lemma_precedes_transitive(k, gs[0].0, gs[m].0);
                lemma_precedes_strict_total(k, gs[m].0);
            }
        }
        lemma_group_of_absent(gs, k);
        assert forall|k2: Seq<char>| #[trigger]
            group_of(r, k2) == if k2 == k {
                group_of(gs, k).push(v)
            } else {
                group_of(gs, k2)
            } by {
            assert(r.drop_first() =~= gs);
            assert(seq![v] =~= Seq::<V>::empty().push(v));
        }
    } else {
        let rest = gs.drop_first();
        assert forall|i: int, j: int| 0 <= i < j < rest.len() implies precedes(
            #[trigger] rest[i].0,
            #[trigger] rest[j].0,
        ) by {
            assert(rest[i] == gs[i + 1] && rest[j] == gs[j + 1]);
        }
        lemma_group_insert_keys(rest, k, v);
        let rr = group_insert(rest, k, v);
        assert(r == seq![gs[0]] + rr);
        lemma_precedes_strict_total(k, gs[0].0);
        assert forall|i: int| 0 <= i < rr.len() implies precedes(gs[0].0, #[trigger] rr[i].0) by {
            if rr[i].0 != k {
                let j = choose|j: int| 0 <= j < rest.len() && rest[j].0 == rr[i].0;
                assert(rest[j] == gs[j + 1]);
            }
        }
        assert forall|i: int| 0 <= i < r.len() implies (#[trigger] r[i]).0 == k || exists|j: int|
            0 <= j < gs.len() && gs[j].0 == r[i].0 by {
            if i > 0 {
                assert(r[i] == rr[i - 1]);
                if rr[i - 1].0 != k {
                    let j = choose|j: int| 0 <= j < rest.len() && rest[j].0 == rr[i - 1].0;
                    assert(rest[j] == gs[j + 1]);
                }
            } else {
                assert(gs[0].0 == r[0].0);
            }
        }
        assert forall|i: int, j: int| 0 <= i < j < r.len() implies precedes(
            #[trigger] r[i].0,
            #[trigger] r[j].0,
        ) by {
            assert(r[j] == rr[j - 1]);
            if i > 0 {
                assert(r[i] == rr[i - 1]);
            }
        }
        assert forall|k2: Seq<char>| #[trigger]
            group_of(r, k2) == if k2 == k {
                group_of(gs, k).push(v)
            } else {
                group_of(gs, k2)
            } by {
            assert(r.drop_first() =~= rr);
            assert(r[0] == gs[0]);
            if gs[0].0 != k2 {
                assert(group_of(r, k2) == group_of(rr, k2));
                assert(group_of(gs, k2) == group_of(rest, k2));
                assert(group_of(gs, k) == group_of(rest, k));
            }
        }
    }
}

/// Law of grouping: the groups come in strictly increasing key order (so no
/// key twice), each group holds exactly the values of the entries with its
/// key, in the order the entries came, and no group is empty.
pub proof fn law_grouped<V>(es: Seq<(Seq<char>, V)>)
    ensures
        keys_increase(grouped(es)),
        groups_nonempty(grouped(es)),
        forall|k: Seq<char>| #[trigger] group_of(grouped(es), k) == values_of(es, k),
    decreases es.len(),
{
    lemma_grouped_nonempty(es);
    if es.len() > 0 {
        let prev = es.drop_last();
        law_grouped(prev);
        lemma_group_insert_keys(grouped(prev), es.last().0, es.last().1);
        assert forall|k: Seq<char>| #[trigger] group_of(grouped(es), k) == values_of(es, k) by {
            assert(group_of(grouped(prev), k) == values_of(prev, k));
        }
    }
}

proof fn lemma_set_insert(xs: Seq<Seq<char>>, x: Seq<char>)
    requires
        increasing(xs),
    ensures
        increasing(set_insert(xs, x)),
        forall|y: Seq<char>| #[trigger]
            set_insert(xs, x).contains(y) <==> (xs.contains(y) || y == x),
    decreases xs.len(),
{
    let r = set_insert(xs, x);
    if xs.len() == 0 {
        assert forall|y: Seq<char>| #[trigger] r.contains(y) <==> (xs.contains(y) || y == x) by {
            if r.contains(y) {
                assert(r[0] == x);
            }
            if y == x {
                assert(r[0] == y);
            }
        }
    } else if xs[0] == x {
        assert forall|y: Seq<char>| #[trigger] r.contains(y) <==> (xs.contains(y) || y == x) by {
            if y == x {
                assert(xs[0] == y);
            }
        }
    } else if precedes(x, xs[0]) {
        assert forall|i: int, j: int| 0 <= i < j < r.len() implies precedes(
            #[trigger] r[i],
            #[trigger] r[j],
        ) by {
            assert(r[j] == xs[j - 1]);
            if i > 0 {
                assert(r[i] == xs[i - 1]);
            } else if j - 1 > 0 {
                lemma_precedes_transitive(x, xs[0], xs[j - 1]);
            }
        }
        assert forall|y: Seq<char>| #[trigger] r.contains(y) <==> (xs.contains(y) || y == x) by {
            if r.contains(y) {
                let i = choose|i: int| 0 <= i < r.len() && r[i] == y;
                if i > 0 {
                    assert(xs[i - 1] == y);
                }
            }
            if xs.contains(y) {
                let i = choose|i: int| 0 <= i < xs.len() && xs[i] == y;
                assert(r[i + 1] == y);
            }
            if y == x {
                assert(r[0] == y);
            }
        }
    } else {
        let rest = xs.drop_first();
        assert forall|i: int, j: int| 0 <= i < j < rest.len() implies precedes(
            #[trigger] rest[i],
            #[trigger] rest[j],
        ) by {
            assert(rest[i] == xs[i + 1] && rest[j] == xs[j + 1]);
        }
        lemma_set_insert(rest, x);
        let rr = set_insert(rest, x);
        assert(r == seq![xs[0]] + rr);
        lemma_precedes_strict_total(x, xs[0]);
        assert forall|i: int| 0 <= i < rr.len() implies precedes(xs[0], #[trigger] rr[i]) by {
            assert(rr.contains(rr[i]));
            if rr[i] != x {
                assert(rest.contains(rr[i]));
                let j = choose|j: int| 0 <= j < rest.len() && rest[j] == rr[i];
                assert(rest[j] == xs[j + 1]);
            }
        }
        assert forall|i: int, j: int| 0 <= i < j < r.len() implies precedes(
            #[trigger] r[i],
            #[trigger] r[j],
        ) by {
            assert(r[j] == rr[j - 1]);
            if i > 0 {
                assert(r[i] == rr[i - 1]);
            }
        }
        assert forall|y: Seq<char>| #[trigger] r.contains(y) <==> (xs.contains(y) || y == x) by {
            if r.contains(y) {
                let i = choose|i: int| 0 <= i < r.len() && r[i] == y;
                if i > 0 {
                    assert(rr[i - 1] == y);
                    assert(rr.contains(y));
                    if rest.contains(y) {
                        let j = choose|j: int| 0 <= j < rest.len() && rest[j] == y;
                        assert(xs[j + 1] == y);
                    }
                } else {
                    assert(xs[0] == y);
                }
            }
            if xs.contains(y) {
                let i = choose|i: int| 0 <= i < xs.len() && xs[i] == y;
                if i > 0 {
                    assert(rest[i - 1] == y);
                    assert(rest.contains(y));
                    assert(rr.contains(y));
                    let j = choose|j: int| 0 <= j < rr.len() && rr[j] == y;
                    assert(r[j + 1] == y);
                } else {
                    assert(r[0] == y);
                }
            }
            if y == x {
                assert(rr.contains(y));
                let j = choose|j: int| 0 <= j < rr.len() && rr[j] == y;
                assert(r[j + 1] == y);
            }
        }
    }
}

/// Law of sorted sets: `sorted_set(xs)` is strictly increasing (so holds no
/// text twice) and holds exactly the texts of `xs`.
pub proof fn law_sorted_set(xs: Seq<Seq<char>>)
    ensures
        increasing(sorted_set(xs)),
        forall|y: Seq<char>| #[trigger] sorted_set(xs).contains(y) <==> xs.contains(y),
    decreases xs.len(),
{
    if xs.len() > 0 {
        let prev = xs.drop_last();
        law_sorted_set(prev);
        lemma_set_insert(sorted_set(prev), xs.last());
        assert forall|y: Seq<char>| #[trigger] sorted_set(xs).contains(y) <==> xs.contains(y) by {
            assert(sorted_set(prev).contains(y) <==> prev.contains(y));
            if xs.contains(y) && y != xs.last() {
                let i = choose|i: int| 0 <= i < xs.len() && xs[i] == y;
                assert(prev[i] == y);
            }
            if prev.contains(y) {
                let i = choose|i: int| 0 <= i < prev.len() && prev[i] == y;
                assert(xs[i] == y);
            }
            if y == xs.last() {
                assert(xs[xs.len() - 1] == y);
            }
        }
    } else {
        assert forall|y: Seq<char>| #[trigger] sorted_set(xs).contains(y) <==> xs.contains(y) by {
            assert(sorted_set(xs) =~= Seq::<Seq<char>>::empty());
        }
    }
}

/// Every key of `grouped(es)` is the key of some entry of `es`.
pub proof fn lemma_grouped_keys_from_entries<V>(es: Seq<(Seq<char>, V)>)
    ensures
        forall|j: int|
            0 <= j < grouped(es).len() ==> exists|i: int|
                0 <= i < es.len() && es[i].0 == (#[trigger] grouped(es)[j]).0,
    decreases es.len(),
{
    if es.len() > 0 {
        let prev = es.drop_last();
        lemma_grouped_keys_from_entries(prev);
        law_grouped(prev);
        lemma_group_insert_keys(grouped(prev), es.last().0, es.last().1);
        let g = grouped(es);
        assert forall|j: int| 0 <= j < g.len() implies exists|i: int|
            0 <= i < es.len() && es[i].0 == (#[trigger] g[j]).0 by {
            if g[j].0 == es.last().0 {
                assert(es[es.len() - 1].0 == g[j].0);
            } else {
                let m = choose|m: int| 0 <= m < grouped(prev).len() && grouped(prev)[m].0 == g[j].0;
                let i = choose|i: int| 0 <= i < prev.len() && prev[i].0 == grouped(prev)[m].0;
                assert(es[i] == prev[i]);
            }
        }
    }
}

} // verus!
