//! Nothing is lost by bringing a value into short form.

use crate::json::{JsonNumber, JsonTree};
use crate::perf_db::codec::{
    code_of, compacted, compacted_entries, compacted_items, entry, expanded, expanded_entries,
    expanded_items, full_tensor, is_run, is_short, key_sorted, law_codes_round_trip,
    lemma_compacted_entries, lemma_compacted_items, lemma_expanded_entries, lemma_expanded_items,
    lemma_sorted_entries, lemma_sorted_items, period_from, repeated, repeats, run_of, same_tree,
    short_dtype, short_list, sorted_entries, sorted_items, tensor_parts, KeyEntry,
};
use crate::sort::{in_order, placed};
use vstd::prelude::*;

verus! {

/// Whether a value is a whole number.
pub open spec fn is_whole(t: JsonTree) -> bool {
    t is Number && !(t->Number_0 is Float)
}

/// Whether some values are whole numbers.
pub open spec fn all_whole(a: Seq<JsonTree>) -> bool {
    forall|i: int| 0 <= i < a.len() ==> is_whole(#[trigger] a[i])
}

/// Whether an array of two values could be taken for a tensor in short form.
pub open spec fn mistakable(a: Seq<JsonTree>) -> bool {
    a.len() == 2 && a[0] is Text && (a[1] is Array || a[1] is Object)
}

/// Whether no part of a value could be taken for the short form of another, the
/// shapes of tensors are whole numbers, and lists can be counted.
pub open spec fn plain(t: JsonTree) -> bool
    decreases t,
{
    match t {
        JsonTree::Array(a) => !mistakable(a) && a.len() <= u64::MAX && forall|i: int|
            0 <= i < a.len() ==> plain(#[trigger] a[i]),
        JsonTree::Object(m) => match tensor_parts(m) {
            Some((code, shape)) => all_whole(shape->Array_0),
            None => !(m.len() == 1 && m[0].0 == "R"@) && forall|i: int|
                0 <= i < m.len() ==> plain((#[trigger] m[i]).1),
        },
        _ => true,
    }
}

/// A value with the entries of its objects in a fixed order: by their keys, but for
/// tensors, whose shape comes first.
pub open spec fn normal(t: JsonTree) -> JsonTree
    decreases t,
{
    match t {
        JsonTree::Object(m) => match tensor_parts(m) {
            Some((code, shape)) => full_tensor(shape, entry(m, "dtype"@, 0)->0->Text_0),
            None => JsonTree::Object(in_order::<KeyEntry>(normal_entries(m))),
        },
        JsonTree::Array(a) => JsonTree::Array(normal_items(a)),
        other => other,
    }
}

/// Some values in normal form.
pub open spec fn normal_items(a: Seq<JsonTree>) -> Seq<JsonTree>
    decreases a,
{
    Seq::new(
        a.len(),
        |i: int|
            if 0 <= i < a.len() {
                normal(a[i])
            } else {
                JsonTree::Null
            },
    )
}

/// Some entries with their values in normal form.
pub open spec fn normal_entries(m: Seq<(Seq<char>, JsonTree)>) -> Seq<(Seq<char>, JsonTree)>
    decreases m,
{
    Seq::new(
        m.len(),
        |i: int|
            if 0 <= i < m.len() {
                (m[i].0, normal(m[i].1))
            } else {
                (seq![], JsonTree::Null)
            },
    )
}

/// Some values in normal form are each of them in normal form.
pub proof fn lemma_normal_items(a: Seq<JsonTree>)
    ensures
        normal_items(a).len() == a.len(),
        forall|i: int| 0 <= i < a.len() ==> #[trigger] normal_items(a)[i] == normal(a[i]),
{
    reveal_with_fuel(normal, 2);
    reveal_with_fuel(normal_items, 2);
}

/// The values of some entries in normal form are each of them in normal form.
pub proof fn lemma_normal_entries(m: Seq<(Seq<char>, JsonTree)>)
    ensures
        normal_entries(m).len() == m.len(),
        forall|i: int|
            0 <= i < m.len() ==> #[trigger] normal_entries(m)[i] == (m[i].0, normal(m[i].1)),
{
    reveal_with_fuel(normal, 2);
    reveal_with_fuel(normal_entries, 2);
}

proof fn lemma_expanded_push(m: Seq<(Seq<char>, JsonTree)>, e: (Seq<char>, JsonTree))
    ensures
        expanded_entries(m.push(e)) == expanded_entries(m).push((e.0, expanded(e.1))),
{
    lemma_expanded_entries(m);
    lemma_expanded_entries(m.push(e));
    assert(expanded_entries(m.push(e)) =~= expanded_entries(m).push((e.0, expanded(e.1))));
}

proof fn lemma_placed_expanded(m: Seq<(Seq<char>, JsonTree)>, e: (Seq<char>, JsonTree))
    ensures
        expanded_entries(placed::<KeyEntry>(m, e)) == placed::<KeyEntry>(
            expanded_entries(m),
            (e.0, expanded(e.1)),
        ),
    decreases m.len(),
{
    lemma_expanded_entries(m);
    if m.len() == 0 {
        lemma_expanded_push(m, e);
    } else {
        let front = m.drop_last();
        let last = m.last();
        assert(m =~= front.push(last));
        lemma_expanded_push(front, last);
        assert(expanded_entries(m).drop_last() =~= expanded_entries(front));
        assert(expanded_entries(m).last() == (last.0, expanded(last.1)));
        lemma_expanded_push(m, e);
        lemma_placed_expanded(front, e);
        lemma_expanded_push(placed::<KeyEntry>(front, e), last);
    }
}

/// Ordering entries by their keys and bringing their values out of short form can
/// be done in either order.
proof fn lemma_order_expanded(m: Seq<(Seq<char>, JsonTree)>)
    ensures
        expanded_entries(in_order::<KeyEntry>(m)) == in_order::<KeyEntry>(expanded_entries(m)),
    decreases m.len(),
{
    lemma_expanded_entries(m);
    if m.len() == 0 {
        assert(expanded_entries(m) =~= seq![]);
        assert(in_order::<KeyEntry>(m) =~= m);
    } else {
        let front = m.drop_last();
        assert(m =~= front.push(m.last()));
        lemma_expanded_push(front, m.last());
        assert(expanded_entries(m).drop_last() =~= expanded_entries(front));
        lemma_order_expanded(front);
        lemma_placed_expanded(in_order::<KeyEntry>(front), m.last());
    }
}

proof fn lemma_whole_sorted(a: Seq<JsonTree>)
    requires
        all_whole(a),
    ensures
        key_sorted(JsonTree::Array(a)) == JsonTree::Array(a),
{
    lemma_sorted_items(a);
    assert forall|i: int| 0 <= i < a.len() implies sorted_items(a)[i] == a[i] by {
        assert(is_whole(a[i]));
        assert(sorted_items(a)[i] == key_sorted(a[i]));
    }
    assert(sorted_items(a) =~= a);
}

pub proof fn lemma_one_in_order(m: Seq<(Seq<char>, JsonTree)>)
    requires
        m.len() == 1,
    ensures
        in_order::<KeyEntry>(m) == m,
{
    reveal_with_fuel(in_order, 2);
    assert(in_order::<KeyEntry>(m.drop_last()) =~= seq![]);
    assert(in_order::<KeyEntry>(m) =~= m);
}

/// A tensor in short form.
spec fn short_tensor(code: Seq<char>, shape: Seq<JsonTree>) -> JsonTree {
    JsonTree::Array(seq![JsonTree::Text(code), JsonTree::Array(shape)])
}

proof fn lemma_short_tensor(code: Seq<char>, shape: Seq<JsonTree>, name: Seq<char>)
    requires
        all_whole(shape),
        code_of(name) == Some(code),
    ensures
        key_sorted(short_tensor(code, shape)) == short_tensor(code, shape),
        expanded(short_tensor(code, shape)) == full_tensor(JsonTree::Array(shape), name),
{
    let a = seq![JsonTree::Text(code), JsonTree::Array(shape)];
    lemma_sorted_items(a);
    lemma_whole_sorted(shape);
    assert(sorted_items(a)[0] == key_sorted(a[0]));
    assert(sorted_items(a)[1] == key_sorted(a[1]));
    assert(sorted_items(a) =~= a);
    law_codes_round_trip(name);
}

proof fn lemma_same_short(
    code: Seq<char>,
    shape: Seq<JsonTree>,
    other_code: Seq<char>,
    other: Seq<JsonTree>,
)
    requires
        all_whole(shape),
        same_tree(short_tensor(code, shape), short_tensor(other_code, other)),
    ensures
        code == other_code,
        shape == other,
{
    let a = seq![JsonTree::Text(code), JsonTree::Array(shape)];
    let b = seq![JsonTree::Text(other_code), JsonTree::Array(other)];
    assert(same_tree(a[0], b[0]));
    assert(same_tree(a[1], b[1]));
    assert forall|i: int| 0 <= i < shape.len() implies shape[i] == other[i] by {
        assert(is_whole(shape[i]));
        assert(same_tree(shape[i], other[i]));
    }
    assert(shape =~= other);
}

/// The code, the shape and the element type of a tensor.
spec fn is_tensor(t: JsonTree, code: Seq<char>, shape: Seq<JsonTree>, name: Seq<char>) -> bool {
    &&& t is Object
    &&& tensor_parts(t->Object_0) == Some((code, JsonTree::Array(shape)))
    &&& entry(t->Object_0, "dtype"@, 0) == Some(JsonTree::Text(name))
    &&& code_of(name) == Some(code)
    &&& all_whole(shape)
}

/// In a plain value only tensors have a short form of the form of a tensor.
proof fn lemma_short_is_tensor(t: JsonTree) -> (r: (Seq<char>, Seq<JsonTree>, Seq<char>))
    requires
        plain(t),
        is_short(compacted(t)),
    ensures
        is_tensor(t, r.0, r.1, r.2),
        compacted(t) == short_tensor(r.0, r.1),
        normal(t) == full_tensor(JsonTree::Array(r.1), r.2),
{
    match t {
        JsonTree::Object(m) => {
            if tensor_parts(m) is None {
                lemma_compacted_entries(m);
            }
            let shape = entry(m, "shape"@, 0)->0->Array_0;
            let name = entry(m, "dtype"@, 0)->0->Text_0;
            let code = code_of(name)->0;
            (code, shape, name)
        },
        JsonTree::Array(b) => {
            lemma_compacted_items(b);
            let items = compacted_items(b);
            assert(compacted(t) == JsonTree::Array(items));
            assert(items[0] == compacted(b[0]));
            assert(items[1] == compacted(b[1]));
            lemma_compacted_kind(b[0]);
            lemma_compacted_kind(b[1]);
            assert(mistakable(b));
            (seq![], seq![], seq![])
        },
        _ => (seq![], seq![], seq![]),
    }
}

proof fn lemma_compacted_kind(t: JsonTree)
    ensures
        compacted(t) is Text ==> t is Text,
        compacted(t) is Array ==> t is Array || t is Object,
{
}

proof fn lemma_repeated(items: Seq<JsonTree>, k: nat)
    requires
        items.len() > 0,
    ensures
        repeated(items, k).len() == k * items.len(),
        forall|i: int|
            0 <= i < repeated(items, k).len() ==> #[trigger] repeated(items, k)[i] == items[i
                % items.len() as int],
    decreases k,
{
    let p = items.len() as int;
    if k > 0 {
        lemma_repeated(items, (k - 1) as nat);
        let before = repeated(items, (k - 1) as nat);
        assert(k * items.len() == (k - 1) * items.len() + items.len()) by (nonlinear_arith);
        assert forall|i: int| 0 <= i < repeated(items, k).len() implies #[trigger] repeated(
            items,
            k,
        )[i] == items[i % p] by {
            if i >= before.len() {
                let r = i - before.len();
                assert(before.len() == (k - 1) * p);
                vstd::arithmetic::div_mod::lemma_fundamental_div_mod_converse(
                    i,
                    p,
                    k - 1,
                    r,
                );
            }
        }
    } else {
        assert(0 * items.len() == 0);
    }
}

pub proof fn lemma_period_from(items: Seq<JsonTree>, p: int)
    requires
        1 <= p,
    ensures
        period_from(items, p) matches Some(q) ==> p <= q <= items.len() / 2 && repeats(items, q),
    decreases items.len() - p,
{
    if p <= items.len() / 2 && !repeats(items, p) {
        lemma_period_from(items, p + 1);
    }
}

/// A run of values that have their keys in order has its keys in order.
proof fn lemma_run_of_sorted(k: nat, period: Seq<JsonTree>)
    requires
        sorted_items(period) == period,
    ensures
        key_sorted(run_of(k, period)) == run_of(k, period),
{
    let pair = seq![JsonTree::Number(JsonNumber::PosInt(k as u64)), JsonTree::Array(period)];
    lemma_sorted_items(pair);
    assert(sorted_items(pair)[0] == key_sorted(pair[0]));
    assert(sorted_items(pair)[1] == key_sorted(pair[1]));
    assert(sorted_items(pair) =~= pair);
    let m = seq![("R"@, JsonTree::Array(pair))];
    lemma_sorted_entries(m);
    assert(sorted_entries(m)[0] == (m[0].0, key_sorted(m[0].1)));
    assert(sorted_entries(m) =~= m);
    lemma_one_in_order(m);
    assert(run_of(k, period) == JsonTree::Object(m));
}

/// A tensor in short form has its keys in order.
proof fn lemma_tensor_sorted(t: JsonTree)
    requires
        plain(t),
        is_short(compacted(t)),
    ensures
        key_sorted(compacted(t)) == compacted(t),
{
    let (code, shape, name) = lemma_short_is_tensor(t);
    lemma_short_tensor(code, shape, name);
}

/// The short form of a list of tensors that repeats itself has its keys in order.
proof fn lemma_run_sorted(a: Seq<JsonTree>)
    requires
        plain(JsonTree::Array(a)),
        short_list(compacted_items(a)),
        period_from(compacted_items(a), 1) is Some,
    ensures
        key_sorted(compacted(JsonTree::Array(a))) == compacted(JsonTree::Array(a)),
{
    let items = compacted_items(a);
    lemma_compacted_items(a);
    lemma_period_from(items, 1);
    let p = period_from(items, 1)->0;
    let period = items.take(p);
    lemma_sorted_items(period);
    assert forall|j: int| 0 <= j < p implies sorted_items(period)[j] == period[j] by {
        assert(plain(a[j]));
        assert(is_short(items[j]));
        assert(items[j] == compacted(a[j]));
        lemma_tensor_sorted(a[j]);
    }
    assert(sorted_items(period) =~= period);
    lemma_run_of_sorted(items.len() / p as nat, period);
}

/// Two tensors whose short forms are the same are restored alike.
proof fn lemma_same_restored(t: JsonTree, other: JsonTree)
    requires
        plain(t),
        plain(other),
        is_short(compacted(t)),
        is_short(compacted(other)),
        same_tree(compacted(t), compacted(other)),
    ensures
        expanded(compacted(other)) == normal(t),
{
    let (code, shape, name) = lemma_short_is_tensor(t);
    let (other_code, other_shape, other_name) = lemma_short_is_tensor(other);
    lemma_same_short(code, shape, other_code, other_shape);
    lemma_short_tensor(other_code, other_shape, other_name);
    law_codes_round_trip(name);
    law_codes_round_trip(other_name);
}

/// A list of tensors that repeats itself is restored.
proof fn lemma_restore_run(a: Seq<JsonTree>)
    requires
        plain(JsonTree::Array(a)),
        short_list(compacted_items(a)),
        period_from(compacted_items(a), 1) is Some,
    ensures
        expanded(compacted(JsonTree::Array(a))) == JsonTree::Array(normal_items(a)),
{
    let items = compacted_items(a);
    let n = items.len() as int;
    lemma_compacted_items(a);
    lemma_normal_items(a);
    lemma_period_from(items, 1);
    let p = period_from(items, 1)->0;
    let k = items.len() / p as nat;
    let period = items.take(p);
    vstd::arithmetic::div_mod::lemma_fundamental_div_mod(n, p);
    assert(n == p * (n / p));
    assert(k * (p as nat) == n) by (nonlinear_arith)
        requires
            n == p * (n / p),
            k == n / p,
            p > 0,
    ;
    assert(k <= n) by (nonlinear_arith)
        requires
            n == p * (n / p),
            k == n / p,
            p >= 1,
            n >= 0,
    ;
    assert(compacted(JsonTree::Array(a)) == run_of(k, period));

    let pair = seq![JsonTree::Number(JsonNumber::PosInt(k as u64)), JsonTree::Array(period)];
    let m = seq![("R"@, JsonTree::Array(pair))];
    assert(run_of(k, period) == JsonTree::Object(m));
    assert(is_run(m));

    // Each value of the list is the one of the period that it repeats.
    lemma_expanded_items(period);
    let full = expanded_items(period);
    lemma_repeated(full, k);
    assert(expanded(JsonTree::Object(m)) == JsonTree::Array(repeated(full, k)));
    assert(repeated(full, k) =~= normal_items(a)) by {
        assert forall|i: int| 0 <= i < n implies repeated(full, k)[i] == normal_items(a)[i] by {
            let r = i % p;
            vstd::arithmetic::div_mod::lemma_mod_bound(i, p);
            vstd::arithmetic::div_mod::lemma_mod_decreases(i as nat, p as nat);
            assert(repeated(full, k)[i] == full[r]);
            assert(full[r] == expanded(period[r]));
            assert(plain(a[i]));
            assert(plain(a[r]));
            assert(is_short(items[i]));
            assert(is_short(items[r]));
            assert(items[i] == compacted(a[i]));
            assert(items[r] == compacted(a[r]));
            assert(same_tree(items[i], items[r]));
            lemma_same_restored(a[i], a[r]);
        }
    }
}

/// Bringing a plain value into short form, sorting its keys, and bringing it out of
/// short form again gives the value with the entries of its objects in a fixed order.
pub proof fn law_sorted_form_restored(t: JsonTree)
    requires
        plain(t),
    ensures
        expanded(key_sorted(compacted(t))) == normal(t),
    decreases t,
{
    match t {
        JsonTree::Object(m) => {
            if let Some((code, shape)) = tensor_parts(m) {
                let (c, s, name) = lemma_short_is_tensor(t);
                lemma_short_tensor(c, s, name);
            } else {
                let ce = compacted_entries(m);
                let se = sorted_entries(ce);
                let ee = expanded_entries(se);
                let ne = normal_entries(m);
                lemma_compacted_entries(m);
                lemma_sorted_entries(ce);
                lemma_expanded_entries(se);
                lemma_normal_entries(m);
                assert forall|i: int| 0 <= i < m.len() implies ee[i] == ne[i] by {
                    assert(decreases_to!(m => m[i]));
                    assert(decreases_to!(m[i] => m[i].1));
                    assert(plain(m[i].1));
                    law_sorted_form_restored(m[i].1);
                    assert(ce[i] == (m[i].0, compacted(m[i].1)));
                    assert(se[i] == (ce[i].0, key_sorted(ce[i].1)));
                    assert(ee[i] == (se[i].0, expanded(se[i].1)));
                }
                assert(ee =~= ne);
                lemma_order_expanded(se);
                let so = in_order::<KeyEntry>(se);
                crate::sort::law_sort_keeps_items::<KeyEntry>(se);
                if so.len() == 1 {
                    lemma_one_in_order(se);
                    assert(se[0] == (ce[0].0, key_sorted(ce[0].1)));
                    assert(ce[0] == (m[0].0, compacted(m[0].1)));
                }
                assert(!is_run(so));
            }
        },
        JsonTree::Array(a) => {
            let items = compacted_items(a);
            lemma_compacted_items(a);
            if short_list(items) && period_from(items, 1) is Some {
                lemma_run_sorted(a);
                lemma_restore_run(a);
            } else {
                let si = sorted_items(items);
                lemma_sorted_items(items);
                lemma_expanded_items(si);
                lemma_normal_items(a);
                assert(short_dtype(si) is None) by {
                    if short_dtype(si) is Some {
                        assert(si[0] == key_sorted(items[0]));
                        assert(si[1] == key_sorted(items[1]));
                        assert(items[0] == compacted(a[0]));
                        assert(items[1] == compacted(a[1]));
                        lemma_sorted_kind(items[0]);
                        lemma_sorted_kind(items[1]);
                        lemma_compacted_kind(a[0]);
                        lemma_compacted_kind(a[1]);
                        assert(mistakable(a));
                    }
                }
                assert forall|i: int| 0 <= i < a.len() implies expanded_items(si)[i]
                    == normal_items(a)[i] by {
                    assert(plain(a[i]));
                    assert(decreases_to!(a => a[i]));
                    law_sorted_form_restored(a[i]);
                    assert(items[i] == compacted(a[i]));
                    assert(si[i] == key_sorted(items[i]));
                    assert(expanded_items(si)[i] == expanded(si[i]));
                }
                assert(expanded_items(si) =~= normal_items(a));
            }
        },
        _ => {},
    }
}

/// Whether the shape of each tensor of a value comes first, and its element type second.
pub open spec fn shape_first(t: JsonTree) -> bool
    decreases t,
{
    match t {
        JsonTree::Array(a) => forall|i: int| 0 <= i < a.len() ==> shape_first(#[trigger] a[i]),
        JsonTree::Object(m) => match tensor_parts(m) {
            Some((code, shape)) => t == full_tensor(shape, entry(m, "dtype"@, 0)->0->Text_0),
            None => forall|i: int| 0 <= i < m.len() ==> shape_first((#[trigger] m[i]).1),
        },
        _ => true,
    }
}

/// Bringing a plain value into short form and out of it again gives the value back,
/// where its tensors are written shape first.
pub proof fn law_expand_inverts_compact(t: JsonTree)
    requires
        plain(t),
        shape_first(t),
    ensures
        expanded(compacted(t)) == t,
    decreases t,
{
    match t {
        JsonTree::Object(m) => {
            if let Some((code, shape)) = tensor_parts(m) {
                let (c, s, name) = lemma_short_is_tensor(t);
                lemma_short_tensor(c, s, name);
            } else {
                let ce = compacted_entries(m);
                lemma_compacted_entries(m);
                lemma_expanded_entries(ce);
                assert forall|i: int| 0 <= i < m.len() implies expanded_entries(ce)[i] == m[i] by {
                    assert(decreases_to!(m => m[i]));
                    assert(decreases_to!(m[i] => m[i].1));
                    assert(plain(m[i].1));
                    assert(shape_first(m[i].1));
                    law_expand_inverts_compact(m[i].1);
                    assert(ce[i] == (m[i].0, compacted(m[i].1)));
                    assert(expanded_entries(ce)[i] == (ce[i].0, expanded(ce[i].1)));
                }
                assert(expanded_entries(ce) =~= m);
                if ce.len() == 1 {
                    assert(ce[0] == (m[0].0, compacted(m[0].1)));
                }
                assert(!is_run(ce));
            }
        },
        JsonTree::Array(a) => {
            let items = compacted_items(a);
            lemma_compacted_items(a);
            if short_list(items) && period_from(items, 1) is Some {
                lemma_restore_run(a);
                lemma_normal_items(a);
                assert forall|i: int| 0 <= i < a.len() implies normal_items(a)[i] == a[i] by {
                    assert(plain(a[i]));
                    assert(shape_first(a[i]));
                    assert(is_short(items[i]));
                    assert(items[i] == compacted(a[i]));
                    let (code, shape, name) = lemma_short_is_tensor(a[i]);
                }
                assert(normal_items(a) =~= a);
            } else {
                lemma_expanded_items(items);
                assert(short_dtype(items) is None) by {
                    if short_dtype(items) is Some {
                        assert(items[0] == compacted(a[0]));
                        assert(items[1] == compacted(a[1]));
                        lemma_compacted_kind(a[0]);
                        lemma_compacted_kind(a[1]);
                        assert(mistakable(a));
                    }
                }
                assert forall|i: int| 0 <= i < a.len() implies expanded_items(items)[i] == a[i] by {
                    assert(plain(a[i]));
                    assert(shape_first(a[i]));
                    assert(decreases_to!(a => a[i]));
                    law_expand_inverts_compact(a[i]);
                    assert(items[i] == compacted(a[i]));
                    assert(expanded_items(items)[i] == expanded(items[i]));
                }
                assert(expanded_items(items) =~= a);
            }
        },
        _ => {},
    }
}

proof fn lemma_sorted_kind(t: JsonTree)
    ensures
        key_sorted(t) is Text ==> t is Text,
        key_sorted(t) is Array ==> t is Array,
{
}

} // verus!
