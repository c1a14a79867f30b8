//! What short forms and sorted keys keep of a value: keys that occur once, whole
//! numbers, and how deep things are nested.

use crate::json::{distinct_keys, nested, proper, whole, JsonNumber, JsonTree};
use crate::perf_db::codec::{
    compacted, compacted_entries, compacted_items, entry, key_sorted, lemma_compacted_entries,
    lemma_compacted_items, lemma_sorted_entries, lemma_sorted_items, period_from, run_of,
    short_array, short_list, sorted_entries, sorted_items, tensor_parts, KeyEntry,
};
use crate::perf_db::lossless::lemma_period_from;
use crate::sort::{in_order, law_sort_keeps_items, placed};
use vstd::prelude::*;

verus! {

proof fn lemma_placed_distinct(m: Seq<(Seq<char>, JsonTree)>, e: (Seq<char>, JsonTree))
    requires
        distinct_keys(m),
        forall|i: int| 0 <= i < m.len() ==> (#[trigger] m[i]).0 != e.0,
    ensures
        distinct_keys(placed::<KeyEntry>(m, e)),
        forall|i: int|
            0 <= i < placed::<KeyEntry>(m, e).len() ==> (#[trigger] placed::<KeyEntry>(m, e)[i])
                == e || m.contains(placed::<KeyEntry>(m, e)[i]),
    decreases m.len(),
{
    let after = placed::<KeyEntry>(m, e);
    if m.len() > 0 && !crate::text::text_le(m.last().0, e.0) {
        let front = m.drop_last();
        let last = m.last();
        assert(forall|i: int| 0 <= i < front.len() ==> front[i] == m[i]);
        lemma_placed_distinct(front, e);
        let inner = placed::<KeyEntry>(front, e);
        assert(after == inner.push(last));
        assert forall|i: int| 0 <= i < inner.len() implies (#[trigger] inner[i]).0 != last.0 by {
            if inner[i] != e {
                let j = choose|j: int| 0 <= j < front.len() && front[j] == inner[i];
                assert(m[j].0 != m[m.len() - 1].0);
            } else {
                assert(m[m.len() - 1].0 != e.0);
            }
        }
        assert forall|i: int| 0 <= i < after.len() implies (#[trigger] after[i]) == e
            || m.contains(after[i]) by {
            if i < inner.len() {
                if inner[i] != e {
                    let j = choose|j: int| 0 <= j < front.len() && front[j] == inner[i];
                    assert(m[j] == after[i]);
                }
            } else {
                assert(m[m.len() - 1] == after[i]);
            }
        }
    } else {
        assert(after == m.push(e));
        assert forall|i: int| 0 <= i < after.len() implies (#[trigger] after[i]) == e
            || m.contains(after[i]) by {
            if i < m.len() {
                assert(m[i] == after[i]);
            }
        }
    }
}

/// Ordering entries by their keys keeps the keys different.
pub proof fn lemma_order_distinct(m: Seq<(Seq<char>, JsonTree)>)
    requires
        distinct_keys(m),
    ensures
        distinct_keys(in_order::<KeyEntry>(m)),
    decreases m.len(),
{
    if m.len() > 0 {
        let front = m.drop_last();
        assert(forall|i: int| 0 <= i < front.len() ==> front[i] == m[i]);
        lemma_order_distinct(front);
        law_sort_keeps_items::<KeyEntry>(front);
        let so = in_order::<KeyEntry>(front);
        assert forall|i: int| 0 <= i < so.len() implies (#[trigger] so[i]).0 != m.last().0 by {
            assert(so.contains(so[i]));
            let j = choose|j: int| 0 <= j < front.len() && front[j] == so[i];
            assert(m[j].0 != m[m.len() - 1].0);
        }
        lemma_placed_distinct(so, m.last());
    }
}

/// Every entry of an ordered object is one of the object.
pub proof fn lemma_order_member(m: Seq<(Seq<char>, JsonTree)>, i: int) -> (j: int)
    requires
        0 <= i < in_order::<KeyEntry>(m).len(),
    ensures
        0 <= j < m.len(),
        m[j] == in_order::<KeyEntry>(m)[i],
{
    law_sort_keeps_items::<KeyEntry>(m);
    assert(in_order::<KeyEntry>(m).contains(in_order::<KeyEntry>(m)[i]));
    choose|j: int| 0 <= j < m.len() && m[j] == in_order::<KeyEntry>(m)[i]
}

proof fn lemma_entry_from(m: Seq<(Seq<char>, JsonTree)>, key: Seq<char>, i: int)
    requires
        0 <= i <= m.len(),
    ensures
        match entry(m, key, i) {
            Some(v) => exists|j: int| i <= j < m.len() && #[trigger] m[j] == (key, v),
            None => forall|j: int| i <= j < m.len() ==> (#[trigger] m[j]).0 != key,
        },
    decreases m.len() - i,
{
    if i < m.len() {
        if m[i].0 == key {
            assert(m[i] == (key, m[i].1));
        } else {
            lemma_entry_from(m, key, i + 1);
        }
    }
}

/// The value of an entry is found by its key.
pub proof fn lemma_entry_found(m: Seq<(Seq<char>, JsonTree)>, j: int)
    requires
        distinct_keys(m),
        0 <= j < m.len(),
    ensures
        entry(m, m[j].0, 0) == Some(m[j].1),
{
    lemma_entry_from(m, m[j].0, 0);
    let v = entry(m, m[j].0, 0)->0;
    let k = choose|k: int| 0 <= k < m.len() && #[trigger] m[k] == (m[j].0, v);
    if k < j {
        assert(m[k].0 != m[j].0);
    } else if j < k {
        assert(m[j].0 != m[k].0);
    }
}

/// No value is found by a key that no entry has.
pub proof fn lemma_entry_missing(m: Seq<(Seq<char>, JsonTree)>, key: Seq<char>)
    requires
        forall|j: int| 0 <= j < m.len() ==> (#[trigger] m[j]).0 != key,
    ensures
        entry(m, key, 0) is None,
{
    lemma_entry_from(m, key, 0);
}

/// Values are found by their keys in whatever order the entries are.
pub proof fn lemma_entry_ordered(m: Seq<(Seq<char>, JsonTree)>, key: Seq<char>)
    requires
        distinct_keys(m),
    ensures
        entry(in_order::<KeyEntry>(m), key, 0) == entry(m, key, 0),
{
    let so = in_order::<KeyEntry>(m);
    law_sort_keeps_items::<KeyEntry>(m);
    lemma_entry_from(so, key, 0);
    lemma_entry_from(m, key, 0);
    if let Some(v) = entry(so, key, 0) {
        let i = choose|i: int| 0 <= i < so.len() && #[trigger] so[i] == (key, v);
        let j = lemma_order_member(m, i);
        lemma_entry_found(m, j);
    } else if let Some(v) = entry(m, key, 0) {
        let j = choose|j: int| 0 <= j < m.len() && #[trigger] m[j] == (key, v);
        assert(m.contains(m[j]));
        assert(so.contains(m[j]));
        let i = choose|i: int| 0 <= i < so.len() && so[i] == m[j];
        assert(so[i].0 != key);
    }
}

/// Sorting keys keeps keys different, numbers whole, and nesting.
pub proof fn lemma_sorted_shape(t: JsonTree, n: int)
    ensures
        proper(t) ==> proper(key_sorted(t)),
        whole(t) ==> whole(key_sorted(t)),
        nested(t, n) ==> nested(key_sorted(t), n),
    decreases t,
{
    match t {
        JsonTree::Array(a) => {
            lemma_sorted_items(a);
            let b = sorted_items(a);
            assert forall|i: int| 0 <= i < a.len() implies (proper(t) ==> proper(#[trigger] b[i]))
                && (whole(t) ==> whole(b[i])) && (nested(t, n) ==> nested(b[i], n - 1)) by {
                assert(decreases_to!(a => a[i]));
                lemma_sorted_shape(a[i], n - 1);
                assert(b[i] == key_sorted(a[i]));
                assert(proper(t) ==> proper(a[i]));
                assert(whole(t) ==> whole(a[i]));
                assert(nested(t, n) ==> nested(a[i], n - 1));
            }
        },
        JsonTree::Object(m) => {
            lemma_sorted_entries(m);
            let b = sorted_entries(m);
            let so = in_order::<KeyEntry>(b);
            assert forall|i: int| 0 <= i < m.len() implies (proper(t) ==> proper(
                (#[trigger] b[i]).1,
            )) && (whole(t) ==> whole(b[i].1)) && (nested(t, n) ==> nested(b[i].1, n - 1)) by {
                assert(decreases_to!(m => m[i]));
                assert(decreases_to!(m[i] => m[i].1));
                lemma_sorted_shape(m[i].1, n - 1);
                assert(b[i] == (m[i].0, key_sorted(m[i].1)));
                assert(proper(t) ==> proper(m[i].1));
                assert(whole(t) ==> whole(m[i].1));
                assert(nested(t, n) ==> nested(m[i].1, n - 1));
            }
            assert forall|i: int| 0 <= i < so.len() implies (proper(t) ==> proper(
                (#[trigger] so[i]).1,
            )) && (whole(t) ==> whole(so[i].1)) && (nested(t, n) ==> nested(so[i].1, n - 1)) by {
                let j = lemma_order_member(b, i);
                assert(b[j] == so[i]);
            }
            if proper(t) {
                assert(distinct_keys(b)) by {
                    assert forall|i: int, j: int| 0 <= i < j < b.len() implies (#[trigger] b[i]).0
                        != (#[trigger] b[j]).0 by {
                        assert(m[i].0 != m[j].0);
                        assert(b[i] == (m[i].0, key_sorted(m[i].1)));
                        assert(b[j] == (m[j].0, key_sorted(m[j].1)));
                    }
                }
                lemma_order_distinct(b);
            }
        },
        _ => {},
    }
}

/// What is nested at most so deep is nested at most deeper.
pub proof fn lemma_nested_more(t: JsonTree, n: int, more: int)
    requires
        nested(t, n),
        n <= more,
    ensures
        nested(t, more),
    decreases t,
{
    match t {
        JsonTree::Array(a) => {
            assert forall|i: int| 0 <= i < a.len() implies nested(#[trigger] a[i], more - 1) by {
                assert(decreases_to!(a => a[i]));
                lemma_nested_more(a[i], n - 1, more - 1);
            }
        },
        JsonTree::Object(m) => {
            assert forall|i: int| 0 <= i < m.len() implies nested(
                (#[trigger] m[i]).1,
                more - 1,
            ) by {
                assert(decreases_to!(m => m[i]));
                assert(decreases_to!(m[i] => m[i].1));
                lemma_nested_more(m[i].1, n - 1, more - 1);
            }
        },
        _ => {},
    }
}

proof fn lemma_short_array_proper(items: Seq<JsonTree>)
    requires
        forall|i: int| 0 <= i < items.len() ==> proper(#[trigger] items[i]),
    ensures
        proper(short_array(items)),
{
    if short_list(items) && period_from(items, 1) is Some {
        lemma_period_from(items, 1);
        let p = period_from(items, 1)->0;
        let k = items.len() / p as nat;
        let period = items.take(p);
        let pair = seq![JsonTree::Number(JsonNumber::PosInt(k as u64)), JsonTree::Array(period)];
        let m = seq![("R"@, JsonTree::Array(pair))];
        assert(short_array(items) == JsonTree::Object(m));
        assert(proper(JsonTree::Array(period))) by {
            assert forall|i: int| 0 <= i < period.len() implies proper(#[trigger] period[i]) by {
                assert(period[i] == items[i]);
            }
        }
        assert(proper(JsonTree::Array(pair))) by {
            assert(proper(pair[0]));
            assert(proper(pair[1]));
        }
        assert(proper(JsonTree::Object(m))) by {
            assert(proper(m[0].1));
        }
    }
}

proof fn lemma_short_array_whole(items: Seq<JsonTree>)
    requires
        forall|i: int| 0 <= i < items.len() ==> whole(#[trigger] items[i]),
    ensures
        whole(short_array(items)),
{
    if short_list(items) && period_from(items, 1) is Some {
        lemma_period_from(items, 1);
        let p = period_from(items, 1)->0;
        let k = items.len() / p as nat;
        let period = items.take(p);
        let pair = seq![JsonTree::Number(JsonNumber::PosInt(k as u64)), JsonTree::Array(period)];
        let m = seq![("R"@, JsonTree::Array(pair))];
        assert(short_array(items) == JsonTree::Object(m));
        assert(whole(JsonTree::Array(period))) by {
            assert forall|i: int| 0 <= i < period.len() implies whole(#[trigger] period[i]) by {
                assert(period[i] == items[i]);
            }
        }
        assert(whole(JsonTree::Array(pair))) by {
            assert(whole(pair[0]));
            assert(whole(pair[1]));
        }
        assert(whole(JsonTree::Object(m))) by {
            assert(whole(m[0].1));
        }
    }
}

proof fn lemma_array_nested(a: Seq<JsonTree>, n: int)
    requires
        n >= 0,
        forall|i: int| 0 <= i < a.len() ==> nested(#[trigger] a[i], n),
    ensures
        nested(JsonTree::Array(a), n + 1),
{
}

proof fn lemma_run_nested(k: nat, period: Seq<JsonTree>, n: int)
    requires
        nested(JsonTree::Array(period), n),
        n >= 0,
    ensures
        nested(run_of(k, period), n + 2),
{
    let pair = seq![JsonTree::Number(JsonNumber::PosInt(k as u64)), JsonTree::Array(period)];
    assert(nested(pair[0], n));
    assert(nested(pair[1], n));
    lemma_array_nested(pair, n);
    let m = seq![("R"@, JsonTree::Array(pair))];
    assert(nested(m[0].1, n + 1));
    assert(run_of(k, period) == JsonTree::Object(m));
}

proof fn lemma_short_array_nested(items: Seq<JsonTree>, n: int)
    requires
        n >= 0,
        forall|i: int| 0 <= i < items.len() ==> nested(#[trigger] items[i], n),
    ensures
        nested(short_array(items), n + 3),
{
    lemma_array_nested(items, n);
    lemma_nested_more(JsonTree::Array(items), n + 1, n + 3);
    if short_list(items) && period_from(items, 1) is Some {
        lemma_period_from(items, 1);
        let p = period_from(items, 1)->0;
        let period = items.take(p);
        assert forall|i: int| 0 <= i < period.len() implies nested(#[trigger] period[i], n) by {
            assert(period[i] == items[i]);
        }
        lemma_array_nested(period, n);
        lemma_run_nested(items.len() / p as nat, period, n + 1);
    }
}

/// Short forms keep keys different and numbers whole, and nest at most three times as
/// deep.
pub proof fn lemma_compacted_shape(t: JsonTree, n: int)
    requires
        n >= 0,
    ensures
        proper(t) ==> proper(compacted(t)),
        whole(t) ==> whole(compacted(t)),
        nested(t, n) ==> nested(compacted(t), 3 * n),
    decreases t,
{
    match t {
        JsonTree::Array(a) => {
            lemma_compacted_items(a);
            let b = compacted_items(a);
            assert forall|i: int| 0 <= i < a.len() implies (proper(t) ==> proper(#[trigger] b[i]))
                && (whole(t) ==> whole(b[i])) && (nested(t, n) ==> nested(b[i], 3 * n - 3)) by {
                assert(decreases_to!(a => a[i]));
                assert(b[i] == compacted(a[i]));
                assert(proper(t) ==> proper(a[i]));
                assert(whole(t) ==> whole(a[i]));
                assert(nested(t, n) ==> nested(a[i], n - 1));
                if n >= 1 {
                    lemma_compacted_shape(a[i], n - 1);
                } else {
                    lemma_compacted_shape(a[i], 0);
                }
            }
            if proper(t) {
                lemma_short_array_proper(b);
            }
            if whole(t) {
                lemma_short_array_whole(b);
            }
            if nested(t, n) {
                lemma_short_array_nested(b, 3 * n - 3);
            }
        },
        JsonTree::Object(m) => {
            if let Some((code, shape)) = tensor_parts(m) {
                lemma_entry_from(m, "shape"@, 0);
                let j = choose|j: int| 0 <= j < m.len() && #[trigger] m[j] == ("shape"@, shape);
                let b = seq![JsonTree::Text(code), shape];
                assert(m[j].1 == shape);
                if proper(t) {
                    assert(proper(b[1]));
                    assert(proper(b[0]));
                }
                if whole(t) {
                    assert(whole(b[1]));
                    assert(whole(b[0]));
                }
                if nested(t, n) {
                    assert(nested(b[1], n - 1));
                    assert(nested(b[0], n - 1));
                    assert(nested(JsonTree::Array(b), n));
                    lemma_nested_more(JsonTree::Array(b), n, 3 * n);
                }
            } else {
                lemma_compacted_entries(m);
                let b = compacted_entries(m);
                assert forall|i: int| 0 <= i < m.len() implies (proper(t) ==> proper(
                    (#[trigger] b[i]).1,
                )) && (whole(t) ==> whole(b[i].1)) && (nested(t, n) ==> nested(b[i].1, 3 * n - 1))
                    && b[i].0 == m[i].0 by {
                    assert(decreases_to!(m => m[i]));
                    assert(decreases_to!(m[i] => m[i].1));
                    assert(b[i] == (m[i].0, compacted(m[i].1)));
                    assert(proper(t) ==> proper(m[i].1));
                    assert(whole(t) ==> whole(m[i].1));
                    assert(nested(t, n) ==> nested(m[i].1, n - 1));
                    if n >= 1 {
                        lemma_compacted_shape(m[i].1, n - 1);
                        if nested(t, n) {
                            lemma_nested_more(b[i].1, 3 * n - 3, 3 * n - 1);
                        }
                    } else {
                        lemma_compacted_shape(m[i].1, 0);
                    }
                }
                if proper(t) {
                    assert forall|i: int, j: int| 0 <= i < j < b.len() implies (#[trigger] b[i]).0
                        != (#[trigger] b[j]).0 by {
                        assert(m[i].0 != m[j].0);
                    }
                }
            }
        },
        _ => {},
    }
}

} // verus!
