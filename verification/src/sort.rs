//! Sorting by insertion, which keeps the order of what ranks the same.

use vstd::prelude::*;

verus! {

/// Values that have an order.
pub trait Ranked: View {
    /// Whether the first may stand before the second.
    spec fn ranked(a: Self::V, b: Self::V) -> bool;

    /// Whether this may stand before the other.
    fn not_after(&self, other: &Self) -> (b: bool)
        ensures
            b == Self::ranked(self@, other@),
    ;
}

/// With one more item, behind all that may stand before it.
pub open spec fn placed<T: Ranked>(sorted: Seq<T::V>, item: T::V) -> Seq<T::V>
    decreases sorted.len(),
{
    if sorted.len() == 0 || T::ranked(sorted.last(), item) {
        sorted.push(item)
    } else {
        placed::<T>(sorted.drop_last(), item).push(sorted.last())
    }
}

/// Some items in their order. Those that rank the same keep the order they had.
pub open spec fn in_order<T: Ranked>(items: Seq<T::V>) -> Seq<T::V>
    decreases items.len(),
{
    if items.len() == 0 {
        seq![]
    } else {
        placed::<T>(in_order::<T>(items.drop_last()), items.last())
    }
}

/// What each of some items stands for.
pub open spec fn views<T: View>(items: Seq<T>) -> Seq<T::V> {
    items.map_values(|x: T| x@)
}

fn place<T: Ranked>(sorted: &mut Vec<T>, item: T)
    ensures
        views(final(sorted)@) == placed::<T>(views(old(sorted)@), item@),
{
    let ghost rows = sorted@;
    let ghost all = views(rows);
    let mut n: usize = sorted.len();
    assert(all.take(n as int) =~= all);
    assert(all.skip(n as int) =~= seq![]);
    assert(placed::<T>(all, item@) =~= placed::<T>(all.take(n as int), item@) + all.skip(
        n as int,
    ));
    while n > 0
        invariant
            n <= rows.len(),
            sorted@ == rows,
            all == views(rows),
            placed::<T>(all, item@) == placed::<T>(all.take(n as int), item@) + all.skip(n as int),
        ensures
            n <= rows.len(),
            placed::<T>(all, item@) == placed::<T>(all.take(n as int), item@) + all.skip(n as int),
            n == 0 || T::ranked(all[n - 1], item@),
        decreases n,
    {
        if sorted[n - 1].not_after(&item) {
            break;
        }
        proof {
            let front = all.take(n as int);
            assert(front.drop_last() =~= all.take(n - 1));
            assert(seq![all[n - 1]] + all.skip(n as int) =~= all.skip(n - 1));
            assert(placed::<T>(front, item@) =~= placed::<T>(all.take(n - 1), item@).push(
                all[n - 1],
            ));
            assert(placed::<T>(all, item@) =~= placed::<T>(all.take(n - 1), item@) + all.skip(
                n - 1,
            ));
        }
        n -= 1;
    }
    proof {
        assert(placed::<T>(all.take(n as int), item@) =~= all.take(n as int).push(item@));
        assert(placed::<T>(all, item@) =~= all.insert(n as int, item@));
    }
    sorted.insert(n, item);
    assert(views(sorted@) =~= all.insert(n as int, item@));
}

/// Puts some items in their order.
pub fn sort_rows<T: Ranked>(rows: Vec<T>) -> (r: Vec<T>)
    ensures
        views(r@) == in_order::<T>(views(rows@)),
{
    let ghost all = views(rows@);
    let ghost given = rows@;
    let mut r: Vec<T> = Vec::new();
    assert(views(r@) =~= in_order::<T>(all.take(0)));
    for row in it: rows
        invariant
            it.seq() == given,
            all == views(given),
            views(r@) == in_order::<T>(all.take(it.index())),
    {
        assert(all.take(it.index() + 1).drop_last() =~= all.take(it.index()));
        assert(all.take(it.index() + 1).last() == row@);
        place(&mut r, row);
    }
    assert(all.take(all.len() as int) =~= all);
    r
}

proof fn lemma_placed_items<T: Ranked>(sorted: Seq<T::V>, item: T::V)
    ensures
        placed::<T>(sorted, item).to_multiset() == sorted.to_multiset().insert(item),
    decreases sorted.len(),
{
    broadcast use vstd::seq_lib::group_to_multiset_ensures;

    if sorted.len() > 0 && !T::ranked(sorted.last(), item) {
        let front = sorted.drop_last();
        lemma_placed_items::<T>(front, item);
        assert(front.push(sorted.last()) =~= sorted);
        assert(placed::<T>(sorted, item).to_multiset() =~= sorted.to_multiset().insert(item));
    }
}

/// Sorting keeps every item.
pub proof fn law_sort_keeps_items<T: Ranked>(items: Seq<T::V>)
    ensures
        in_order::<T>(items).to_multiset() == items.to_multiset(),
        in_order::<T>(items).len() == items.len(),
        forall|x: T::V| #[trigger] in_order::<T>(items).contains(x) <==> items.contains(x),
    decreases items.len(),
{
    broadcast use vstd::seq_lib::group_to_multiset_ensures;

    if items.len() > 0 {
        let front = items.drop_last();
        law_sort_keeps_items::<T>(front);
        lemma_placed_items::<T>(in_order::<T>(front), items.last());
        assert(front.push(items.last()) =~= items);
    } else {
        assert(in_order::<T>(items) =~= items);
    }
    assert forall|x: T::V| #[trigger] in_order::<T>(items).contains(x) <==> items.contains(x) by {
        assert(in_order::<T>(items).to_multiset().count(x) > 0
            <==> in_order::<T>(items).contains(x));
        assert(items.to_multiset().count(x) > 0 <==> items.contains(x));
    }
    assert(in_order::<T>(items).len() == in_order::<T>(items).to_multiset().len());
}

/// Whether each of some items may stand before all that come behind it.
pub open spec fn sorted<T: Ranked>(items: Seq<T::V>) -> bool {
    forall|i: int, j: int|
        0 <= i < j < items.len() ==> T::ranked(#[trigger] items[i], #[trigger] items[j])
}

proof fn lemma_placed_sorted<T: Ranked>(items: Seq<T::V>, item: T::V)
    requires
        sorted::<T>(items),
        forall|a: T::V, b: T::V| T::ranked(a, b) || T::ranked(b, a),
        forall|a: T::V, b: T::V, c: T::V| T::ranked(a, b) && T::ranked(b, c) ==> T::ranked(a, c),
    ensures
        sorted::<T>(placed::<T>(items, item)),
        forall|i: int|
            0 <= i < placed::<T>(items, item).len() ==> (#[trigger] placed::<T>(items, item)[i])
                == item || items.contains(placed::<T>(items, item)[i]),
    decreases items.len(),
{
    let after = placed::<T>(items, item);
    if items.len() > 0 && !T::ranked(items.last(), item) {
        let front = items.drop_last();
        let last = items.last();
        lemma_placed_sorted::<T>(front, item);
        let inner = placed::<T>(front, item);
        assert forall|i: int| 0 <= i < inner.len() implies T::ranked(#[trigger] inner[i], last) by {
            if inner[i] != item {
                let j = choose|j: int| 0 <= j < front.len() && front[j] == inner[i];
                assert(items[j] == inner[i]);
                assert(T::ranked(items[j], items[items.len() - 1]));
            } else {
                assert(T::ranked(item, last) || T::ranked(last, item));
            }
        }
        assert forall|i: int| 0 <= i < after.len() implies (#[trigger] after[i]) == item
            || items.contains(after[i]) by {
            if i < inner.len() {
                if inner[i] != item {
                    let j = choose|j: int| 0 <= j < front.len() && front[j] == inner[i];
                    assert(items[j] == after[i]);
                }
            } else {
                assert(items[items.len() - 1] == after[i]);
            }
        }
    } else {
        assert forall|i: int, j: int| 0 <= i < j < after.len() implies T::ranked(
            #[trigger] after[i],
            #[trigger] after[j],
        ) by {
            if j == items.len() {
                if i < items.len() - 1 {
                    assert(T::ranked(items[i], items[items.len() - 1]));
                }
            } else {
                assert(T::ranked(items[i], items[j]));
            }
        }
        assert forall|i: int| 0 <= i < after.len() implies (#[trigger] after[i]) == item
            || items.contains(after[i]) by {
            if i < items.len() {
                assert(items[i] == after[i]);
            }
        }
    }
}

/// Sorting by a total order leaves every item behind those that may stand before
/// it.
pub proof fn law_sort_orders<T: Ranked>(items: Seq<T::V>)
    requires
        forall|a: T::V, b: T::V| T::ranked(a, b) || T::ranked(b, a),
        forall|a: T::V, b: T::V, c: T::V| T::ranked(a, b) && T::ranked(b, c) ==> T::ranked(a, c),
    ensures
        sorted::<T>(in_order::<T>(items)),
    decreases items.len(),
{
    if items.len() > 0 {
        law_sort_orders::<T>(items.drop_last());
        lemma_placed_sorted::<T>(in_order::<T>(items.drop_last()), items.last());
    }
}

/// Items that are in order stay as they are.
pub proof fn lemma_sorted_stays<T: Ranked>(items: Seq<T::V>)
    requires
        sorted::<T>(items),
    ensures
        in_order::<T>(items) == items,
    decreases items.len(),
{
    if items.len() > 0 {
        let front = items.drop_last();
        let n = items.len() - 1;
        assert(forall|i: int| 0 <= i < front.len() ==> front[i] == items[i]);
        lemma_sorted_stays::<T>(front);
        if front.len() > 0 {
            assert(T::ranked(items[n - 1], items[n]));
        }
        assert(front.push(items.last()) =~= items);
    } else {
        assert(in_order::<T>(items) =~= items);
    }
}

/// Two sequences of the same items are the same once they are sorted, where two items
/// that may stand before each other are the same.
proof fn lemma_sorted_unique<T: Ranked>(a: Seq<T::V>, b: Seq<T::V>)
    requires
        sorted::<T>(a),
        sorted::<T>(b),
        a.to_multiset() == b.to_multiset(),
        forall|i: int, j: int|
            0 <= i < a.len() && 0 <= j < a.len() && T::ranked(a[i], a[j]) && T::ranked(a[j], a[i])
                ==> #[trigger] a[i] == #[trigger] a[j],
    ensures
        a == b,
    decreases a.len(),
{
    broadcast use vstd::seq_lib::group_to_multiset_ensures;

    assert(a.len() == a.to_multiset().len() && b.len() == b.to_multiset().len());
    if a.len() == 0 {
        assert(a =~= b);
    } else {
        let n = a.len() - 1;
        let x = a[n];
        let y = b[n];
        assert(a.contains(x) && b.contains(y));
        assert(a.to_multiset().count(x) > 0 && b.to_multiset().count(y) > 0);
        assert(b.contains(x) && a.contains(y));
        let j = choose|j: int| 0 <= j < a.len() && a[j] == y;
        let k = choose|k: int| 0 <= k < b.len() && b[k] == x;
        if x != y {
            assert(T::ranked(a[j], a[n]));
            assert(T::ranked(b[k], b[n]));
            assert(a[j] == a[n]);
        }
        let p = a.drop_last();
        let q = b.drop_last();
        assert(p =~= a.remove(n) && q =~= b.remove(n));
        assert(p.to_multiset() == a.to_multiset().remove(x));
        assert(q.to_multiset() == b.to_multiset().remove(y));
        lemma_sorted_unique::<T>(p, q);
        assert(a =~= p.push(x));
        assert(b =~= q.push(y));
    }
}

/// The result of sorting by a total order does not depend on the order in which the
/// items came, where two of them that may stand before each other are the same.
pub proof fn law_sort_forgets_order<T: Ranked>(a: Seq<T::V>, b: Seq<T::V>)
    requires
        forall|x: T::V, y: T::V| T::ranked(x, y) || T::ranked(y, x),
        forall|x: T::V, y: T::V, z: T::V| T::ranked(x, y) && T::ranked(y, z) ==> T::ranked(x, z),
        forall|i: int, j: int|
            0 <= i < a.len() && 0 <= j < a.len() && T::ranked(a[i], a[j]) && T::ranked(a[j], a[i])
                ==> #[trigger] a[i] == #[trigger] a[j],
        a.to_multiset() == b.to_multiset(),
    ensures
        in_order::<T>(a) == in_order::<T>(b),
{
    let p = in_order::<T>(a);
    let q = in_order::<T>(b);
    law_sort_keeps_items::<T>(a);
    law_sort_keeps_items::<T>(b);
    law_sort_orders::<T>(a);
    law_sort_orders::<T>(b);
    assert forall|i: int, j: int|
        0 <= i < p.len() && 0 <= j < p.len() && T::ranked(p[i], p[j]) && T::ranked(
            p[j],
            p[i],
        ) implies #[trigger] p[i] == #[trigger] p[j] by {
        assert(p.contains(p[i]) && p.contains(p[j]));
        let k = choose|k: int| 0 <= k < a.len() && a[k] == p[i];
        let l = choose|l: int| 0 <= l < a.len() && a[l] == p[j];
        assert(a[k] == a[l]);
    }
    lemma_sorted_unique::<T>(p, q);
}

/// Two sequences of the same items without duplicates have the same items.
pub proof fn lemma_same_items<A>(a: Seq<A>, b: Seq<A>)
    requires
        a.no_duplicates(),
        b.no_duplicates(),
        forall|x: A| a.contains(x) <==> b.contains(x),
    ensures
        a.to_multiset() == b.to_multiset(),
        a.len() == b.len(),
{
    broadcast use vstd::seq_lib::group_to_multiset_ensures;

    a.lemma_multiset_has_no_duplicates();
    b.lemma_multiset_has_no_duplicates();
    assert forall|x: A| a.to_multiset().count(x) == b.to_multiset().count(x) by {
        assert(a.contains(x) <==> b.contains(x));
        if a.contains(x) {
            assert(a.to_multiset().contains(x) && b.to_multiset().contains(x));
        }
    }
    assert(a.to_multiset() =~= b.to_multiset());
    assert(a.len() == a.to_multiset().len() && b.len() == b.to_multiset().len());
}

/// What a function makes of the same items is the same, whatever their order.
pub proof fn lemma_mapped_items<A, B>(a: Seq<A>, b: Seq<A>, f: spec_fn(A) -> B)
    requires
        a.to_multiset() == b.to_multiset(),
    ensures
        a.map_values(f).to_multiset() == b.map_values(f).to_multiset(),
    decreases a.len(),
{
    broadcast use vstd::seq_lib::group_to_multiset_ensures;

    assert(a.len() == a.to_multiset().len() && b.len() == b.to_multiset().len());
    if a.len() == 0 {
        assert(a =~= b);
    } else {
        let n = a.len() - 1;
        let x = a[n];
        assert(a.contains(x));
        assert(a.to_multiset().count(x) > 0);
        assert(b.contains(x));
        let j = choose|j: int| 0 <= j < b.len() && b[j] == x;
        let p = a.remove(n);
        let q = b.remove(j);
        assert(p.to_multiset() == q.to_multiset());
        lemma_mapped_items(p, q, f);
        let am = a.map_values(f);
        let bm = b.map_values(f);
        assert(am.remove(n) =~= p.map_values(f));
        assert(bm.remove(j) =~= q.map_values(f));
        assert(am.contains(am[n]) && bm.contains(bm[j]));
        assert(am.to_multiset().count(f(x)) > 0 && bm.to_multiset().count(f(x)) > 0);
        assert(am.to_multiset() =~= am.to_multiset().remove(f(x)).insert(f(x)));
        assert(bm.to_multiset() =~= bm.to_multiset().remove(f(x)).insert(f(x)));
    }
}

/// Whether one item stands before the first place at which another stands.
pub open spec fn comes_first<A>(items: Seq<A>, x: A, y: A) -> bool {
    exists|k: int| 0 <= k < items.len() && #[trigger] items[k] == x && !items.take(k + 1).contains(y)
}

/// What comes first still does with one more item.
pub proof fn lemma_comes_first_still<A>(items: Seq<A>, last: A, x: A, y: A)
    requires
        comes_first(items, x, y),
    ensures
        comes_first(items.push(last), x, y),
{
    let k = choose|k: int|
        0 <= k < items.len() && #[trigger] items[k] == x && !items.take(k + 1).contains(y);
    let more = items.push(last);
    assert(more.take(k + 1) =~= items.take(k + 1));
    assert(more[k] == x);
}

/// What is there comes before what is not there yet.
pub proof fn lemma_comes_first_new<A>(items: Seq<A>, x: A, y: A)
    requires
        items.contains(x),
        !items.contains(y),
    ensures
        comes_first(items.push(y), x, y),
{
    let k = choose|k: int| 0 <= k < items.len() && items[k] == x;
    let more = items.push(y);
    assert(more[k] == x);
    let upto = more.take(k + 1);
    assert forall|i: int| 0 <= i < upto.len() implies upto[i] != y by {
        assert(upto[i] == items[i]);
    }
}

} // verus!
