//! What sorting the keys of a value is for: values that differ in the order of their
//! entries alone become the same.

use crate::json::{distinct_keys, proper, JsonTree};
use crate::perf_db::codec::{
    key_sorted, lemma_sorted_entries, lemma_sorted_items, sorted_entries, sorted_items, KeyEntry,
};
use crate::perf_db::shape::lemma_order_member;
use crate::sort::{
    in_order, law_sort_forgets_order, law_sort_keeps_items, law_sort_orders, lemma_same_items,
    lemma_sorted_stays, sorted, Ranked,
};
use crate::text::{lemma_text_order, lemma_text_transitive, text_le};
use vstd::prelude::*;

verus! {

/// Whether two values are the same but for the order of the entries of their objects.
pub open spec fn alike(a: JsonTree, b: JsonTree) -> bool
    decreases a,
{
    match (a, b) {
        (JsonTree::Array(x), JsonTree::Array(y)) => x.len() == y.len() && forall|i: int|
            0 <= i < x.len() ==> alike(#[trigger] x[i], y[i]),
        (JsonTree::Object(m), JsonTree::Object(n)) => {
            &&& m.len() == n.len()
            &&& forall|i: int| 0 <= i < m.len() ==> kept_in(#[trigger] m[i], n)
            &&& forall|j: int| 0 <= j < n.len() ==> comes_from(m, #[trigger] n[j])
        },
        (JsonTree::Array(_), _) => false,
        (JsonTree::Object(_), _) => false,
        _ => a == b,
    }
}

/// Whether an entry is among some others, but for the order of entries in its value.
pub open spec fn kept_in(e: (Seq<char>, JsonTree), n: Seq<(Seq<char>, JsonTree)>) -> bool
    decreases e,
{
    exists|j: int| 0 <= j < n.len() && (#[trigger] n[j]).0 == e.0 && alike(e.1, n[j].1)
}

/// Whether some entries hold another, but for the order of entries in its value.
pub open spec fn comes_from(m: Seq<(Seq<char>, JsonTree)>, e: (Seq<char>, JsonTree)) -> bool
    decreases m,
{
    exists|i: int| 0 <= i < m.len() && (#[trigger] m[i]).0 == e.0 && alike(m[i].1, e.1)
}

/// Whether the keys of every object in a value ascend.
pub open spec fn keys_ascend(t: JsonTree) -> bool
    decreases t,
{
    match t {
        JsonTree::Array(a) => forall|i: int| 0 <= i < a.len() ==> keys_ascend(#[trigger] a[i]),
        JsonTree::Object(m) => {
            &&& forall|i: int, j: int|
                0 <= i < j < m.len() ==> text_le((#[trigger] m[i]).0, (#[trigger] m[j]).0)
            &&& forall|i: int| 0 <= i < m.len() ==> keys_ascend((#[trigger] m[i]).1)
        },
        _ => true,
    }
}

proof fn lemma_entries_ranked()
    ensures
        forall|a: (Seq<char>, JsonTree), b: (Seq<char>, JsonTree)|
            KeyEntry::ranked(a, b) || KeyEntry::ranked(b, a),
        forall|
            a: (Seq<char>, JsonTree),
            b: (Seq<char>, JsonTree),
            c: (Seq<char>, JsonTree),
        | KeyEntry::ranked(a, b) && KeyEntry::ranked(b, c) ==> KeyEntry::ranked(a, c),
{
    assert forall|a: (Seq<char>, JsonTree), b: (Seq<char>, JsonTree)|
        KeyEntry::ranked(a, b) || KeyEntry::ranked(b, a) by {
        lemma_text_order(a.0, b.0);
    }
    assert forall|
        a: (Seq<char>, JsonTree),
        b: (Seq<char>, JsonTree),
        c: (Seq<char>, JsonTree),
    | KeyEntry::ranked(a, b) && KeyEntry::ranked(b, c) implies KeyEntry::ranked(a, c) by {
        lemma_text_transitive(a.0, b.0, c.0);
    }
}

/// Sorting the keys of a value changes nothing but the order of entries.
pub proof fn law_sorting_keys_keeps_value(t: JsonTree)
    ensures
        alike(t, key_sorted(t)),
    decreases t,
{
    match t {
        JsonTree::Array(a) => {
            lemma_sorted_items(a);
            assert forall|i: int| 0 <= i < a.len() implies alike(#[trigger] a[i], sorted_items(a)[i])
                by {
                assert(decreases_to!(a => a[i]));
                law_sorting_keys_keeps_value(a[i]);
                assert(sorted_items(a)[i] == key_sorted(a[i]));
            }
            assert(key_sorted(t) == JsonTree::Array(sorted_items(a)));
            assert(alike(t, JsonTree::Array(sorted_items(a))));
        },
        JsonTree::Object(m) => {
            let e = sorted_entries(m);
            let n = in_order::<KeyEntry>(e);
            lemma_sorted_entries(m);
            law_sort_keeps_items::<KeyEntry>(e);
            assert forall|i: int| 0 <= i < m.len() implies alike((#[trigger] m[i]).1, e[i].1) by {
                assert(decreases_to!(m => m[i]));
                assert(decreases_to!(m[i] => m[i].1));
                law_sorting_keys_keeps_value(m[i].1);
                assert(e[i] == (m[i].0, key_sorted(m[i].1)));
            }
            assert forall|i: int| 0 <= i < m.len() implies kept_in(#[trigger] m[i], n) by {
                assert(e[i] == (m[i].0, key_sorted(m[i].1)));
                assert(e.contains(e[i]));
                assert(n.contains(e[i]));
                let j = choose|j: int| 0 <= j < n.len() && n[j] == e[i];
                assert(n[j].0 == m[i].0 && alike(m[i].1, n[j].1));
            }
            assert forall|j: int| 0 <= j < n.len() implies comes_from(m, #[trigger] n[j]) by {
                let i = lemma_order_member(e, j);
                assert(e[i] == (m[i].0, key_sorted(m[i].1)));
                assert(m[i].0 == n[j].0 && alike(m[i].1, n[j].1));
            }
            assert(alike(t, JsonTree::Object(n)));
        },
        _ => {},
    }
}

/// After sorting the keys of a value they ascend in every object.
pub proof fn law_sorting_keys_orders(t: JsonTree)
    ensures
        keys_ascend(key_sorted(t)),
    decreases t,
{
    match t {
        JsonTree::Array(a) => {
            lemma_sorted_items(a);
            assert forall|i: int| 0 <= i < a.len() implies keys_ascend(#[trigger] sorted_items(a)[i])
                by {
                assert(decreases_to!(a => a[i]));
                law_sorting_keys_orders(a[i]);
            }
        },
        JsonTree::Object(m) => {
            let e = sorted_entries(m);
            let n = in_order::<KeyEntry>(e);
            lemma_sorted_entries(m);
            lemma_entries_ranked();
            law_sort_orders::<KeyEntry>(e);
            assert forall|i: int, j: int| 0 <= i < j < n.len() implies text_le(
                (#[trigger] n[i]).0,
                (#[trigger] n[j]).0,
            ) by {
                assert(KeyEntry::ranked(n[i], n[j]));
            }
            assert forall|j: int| 0 <= j < n.len() implies keys_ascend((#[trigger] n[j]).1) by {
                let i = lemma_order_member(e, j);
                assert(e[i] == (m[i].0, key_sorted(m[i].1)));
                assert(decreases_to!(m => m[i]));
                assert(decreases_to!(m[i] => m[i].1));
                law_sorting_keys_orders(m[i].1);
            }
        },
        _ => {},
    }
}

/// A value whose keys ascend is left as it is.
proof fn lemma_ascending_stays(t: JsonTree)
    requires
        keys_ascend(t),
    ensures
        key_sorted(t) == t,
    decreases t,
{
    match t {
        JsonTree::Array(a) => {
            lemma_sorted_items(a);
            assert forall|i: int| 0 <= i < a.len() implies sorted_items(a)[i] == a[i] by {
                assert(decreases_to!(a => a[i]));
                lemma_ascending_stays(a[i]);
            }
            assert(sorted_items(a) =~= a);
        },
        JsonTree::Object(m) => {
            let e = sorted_entries(m);
            lemma_sorted_entries(m);
            assert forall|i: int| 0 <= i < m.len() implies e[i] == m[i] by {
                assert(decreases_to!(m => m[i]));
                assert(decreases_to!(m[i] => m[i].1));
                lemma_ascending_stays(m[i].1);
                assert(e[i] == (m[i].0, key_sorted(m[i].1)));
            }
            assert(e =~= m);
            assert forall|i: int, j: int| 0 <= i < j < m.len() implies KeyEntry::ranked(
                #[trigger] m[i],
                #[trigger] m[j],
            ) by {
                assert(text_le(m[i].0, m[j].0));
            }
            assert(sorted::<KeyEntry>(m));
            lemma_sorted_stays::<KeyEntry>(m);
        },
        _ => {},
    }
}

/// Sorting the keys of a value twice is sorting them once.
pub proof fn law_sorting_keys_twice(t: JsonTree)
    ensures
        key_sorted(key_sorted(t)) == key_sorted(t),
{
    law_sorting_keys_orders(t);
    lemma_ascending_stays(key_sorted(t));
}

/// Values that differ in the order of their entries alone are the same once their keys
/// are sorted.
pub proof fn law_sorting_keys_forgets_order(a: JsonTree, b: JsonTree)
    requires
        proper(a),
        proper(b),
        alike(a, b),
    ensures
        key_sorted(a) == key_sorted(b),
    decreases a,
{
    match (a, b) {
        (JsonTree::Array(x), JsonTree::Array(y)) => {
            lemma_sorted_items(x);
            lemma_sorted_items(y);
            assert forall|i: int| 0 <= i < x.len() implies sorted_items(x)[i] == sorted_items(y)[i]
                by {
                assert(decreases_to!(x => x[i]));
                assert(proper(x[i]) && proper(y[i]));
                assert(alike(x[i], y[i]));
                law_sorting_keys_forgets_order(x[i], y[i]);
            }
            assert(sorted_items(x) =~= sorted_items(y));
        },
        (JsonTree::Object(m), JsonTree::Object(n)) => {
            let p = sorted_entries(m);
            let q = sorted_entries(n);
            lemma_sorted_entries(m);
            lemma_sorted_entries(n);
            assert forall|i: int, j: int|
                0 <= i < m.len() && 0 <= j < n.len() && m[i].0 == n[j].0 && #[trigger] alike(
                    m[i].1,
                    n[j].1,
                ) implies p[i] == q[j] by {
                assert(decreases_to!(m => m[i]));
                assert(decreases_to!(m[i] => m[i].1));
                assert(proper(m[i].1) && proper(n[j].1));
                law_sorting_keys_forgets_order(m[i].1, n[j].1);
                assert(p[i] == (m[i].0, key_sorted(m[i].1)));
                assert(q[j] == (n[j].0, key_sorted(n[j].1)));
            }
            lemma_keys_apart(m);
            lemma_keys_apart(n);
            assert forall|x: (Seq<char>, JsonTree)| p.contains(x) <==> q.contains(x) by {
                if p.contains(x) {
                    let i = choose|i: int| 0 <= i < p.len() && p[i] == x;
                    assert(kept_in(m[i], n));
                    let j = choose|j: int|
                        0 <= j < n.len() && (#[trigger] n[j]).0 == m[i].0 && alike(m[i].1, n[j].1);
                    assert(p[i] == q[j]);
                }
                if q.contains(x) {
                    let j = choose|j: int| 0 <= j < q.len() && q[j] == x;
                    assert(comes_from(m, n[j]));
                    let i = choose|i: int|
                        0 <= i < m.len() && (#[trigger] m[i]).0 == n[j].0 && alike(m[i].1, n[j].1);
                    assert(p[i] == q[j]);
                }
            }
            lemma_same_items(p, q);
            lemma_entries_ranked();
            assert forall|i: int, j: int|
                0 <= i < p.len() && 0 <= j < p.len() && KeyEntry::ranked(p[i], p[j])
                    && KeyEntry::ranked(p[j], p[i]) implies #[trigger] p[i] == #[trigger] p[j] by {
                lemma_text_order(p[i].0, p[j].0);
                assert(p[i].0 == m[i].0 && p[j].0 == m[j].0);
                if i != j {
                    assert(m[i].0 == m[j].0);
                }
            }
            law_sort_forgets_order::<KeyEntry>(p, q);
        },
        _ => {},
    }
}

proof fn lemma_keys_apart(m: Seq<(Seq<char>, JsonTree)>)
    requires
        distinct_keys(m),
    ensures
        sorted_entries(m).no_duplicates(),
{
    let e = sorted_entries(m);
    lemma_sorted_entries(m);
    assert forall|i: int, j: int| 0 <= i < e.len() && 0 <= j < e.len() && i != j implies e[i]
        != e[j] by {
        assert(e[i] == (m[i].0, key_sorted(m[i].1)));
        assert(e[j] == (m[j].0, key_sorted(m[j].1)));
        if i < j {
            assert(m[i].0 != m[j].0);
        } else {
            assert(m[j].0 != m[i].0);
        }
    }
}

} // verus!
