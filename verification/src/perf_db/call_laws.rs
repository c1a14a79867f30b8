//! A call is read back from the key under which it is recorded.

use crate::json::{distinct_keys, nested, proper, whole, JsonTree};
use crate::perf_db::call_json::{
    arg_json, args_json, body_json, call_json, fields_json, int_json, ints_json, json_arg,
    json_args, json_body, json_call, json_field, json_fields, json_ints, json_tensor, json_tensors,
    left_out, tensor_json, tensors_json,
};
use crate::perf_db::codec::{
    code_of, compacted, entry, expanded, key_sorted, tensor_parts, KeyEntry,
};
use crate::perf_db::lossless::{
    all_whole, is_whole, law_expand_inverts_compact, law_sorted_form_restored,
    lemma_normal_entries, lemma_normal_items, lemma_one_in_order, mistakable, normal,
    normal_entries, normal_items, plain, shape_first,
};
use crate::perf_db::shape::{
    lemma_compacted_shape, lemma_entry_found, lemma_entry_missing, lemma_entry_ordered,
    lemma_nested_more, lemma_sorted_shape,
};
use crate::sort::in_order;
use crate::torch_call::{
    tensor_views, ArgView, CallView, TensorView, TorchArg, TorchCallInfo, TorchOp,
};
use crate::torch_op::{kind_of_arg, law_kind_names, law_op_names, well_typed, ArgKind};
use vstd::prelude::*;

verus! {

/// Whether the lists in an argument can be counted.
pub open spec fn arg_countable(a: ArgView) -> bool {
    match a {
        ArgView::Tensor(t) => t.shape.len() <= u64::MAX,
        ArgView::Optional(Some(t)) => t.shape.len() <= u64::MAX,
        ArgView::List(l) => l.len() <= u64::MAX && forall|i: int|
            0 <= i < l.len() ==> (#[trigger] l[i]).shape.len() <= u64::MAX,
        ArgView::Ints(l) => l.len() <= u64::MAX,
        _ => true,
    }
}

/// Whether a call has the arguments that its operator takes, with lists that can be
/// counted.
pub open spec fn valid_call(c: CallView) -> bool {
    well_typed(c) && forall|i: int| 0 <= i < c.args.len() ==> arg_countable(#[trigger] c.args[i])
}

proof fn lemma_ints_back(l: Seq<i64>)
    ensures
        json_ints(ints_json(l)) == Some(l),
        all_whole(ints_json(l)),
    decreases l.len(),
{
    let a = ints_json(l);
    if l.len() > 0 {
        lemma_ints_back(l.drop_last());
        assert(a.drop_last() =~= ints_json(l.drop_last()));
        assert(l.drop_last().push(l.last()) =~= l);
    } else {
        assert(l =~= seq![]);
    }
    assert forall|i: int| 0 <= i < a.len() implies is_whole(#[trigger] a[i]) by {
        assert(a[i] == int_json(l[i]));
    }
}

proof fn lemma_whole_normal(a: Seq<JsonTree>)
    requires
        all_whole(a),
    ensures
        normal(JsonTree::Array(a)) == JsonTree::Array(a),
{
    lemma_normal_items(a);
    assert forall|i: int| 0 <= i < a.len() implies normal_items(a)[i] == a[i] by {
        assert(is_whole(a[i]));
    }
    assert(normal_items(a) =~= a);
}

proof fn lemma_whole_plain(a: Seq<JsonTree>)
    requires
        all_whole(a),
        a.len() <= u64::MAX,
    ensures
        plain(JsonTree::Array(a)),
        shape_first(JsonTree::Array(a)),
{
    assert(!mistakable(a)) by {
        if a.len() == 2 {
            assert(is_whole(a[0]));
        }
    }
    assert forall|i: int| 0 <= i < a.len() implies plain(#[trigger] a[i]) && shape_first(a[i]) by {
        assert(is_whole(a[i]));
    }
}

proof fn lemma_tensor_entries(shape: JsonTree, name: JsonTree)
    ensures
        ({
            let m = seq![("shape"@, shape), ("dtype"@, name)];
            &&& distinct_keys(m)
            &&& entry(m, "shape"@, 0) == Some(shape)
            &&& entry(m, "dtype"@, 0) == Some(name)
        }),
{
    reveal_strlit("shape");
    reveal_strlit("dtype");
    let m = seq![("shape"@, shape), ("dtype"@, name)];
    assert("shape"@[0] == 's' && "dtype"@[0] == 'd');
    assert(distinct_keys(m));
    lemma_entry_found(m, 0);
    lemma_entry_found(m, 1);
}

proof fn lemma_tensor_back(t: TensorView)
    requires
        t.shape.len() <= u64::MAX,
    ensures
        json_tensor(normal(tensor_json(t))) == Some(t),
        normal(tensor_json(t)) is Object,
        plain(tensor_json(t)),
        shape_first(tensor_json(t)),
{
    let ints = ints_json(t.shape);
    let shape = JsonTree::Array(ints);
    let name = JsonTree::Text(t.dtype.text());
    let m = seq![("shape"@, shape), ("dtype"@, name)];
    lemma_ints_back(t.shape);
    lemma_tensor_entries(shape, name);
    law_kind_names(t.dtype);
    assert(tensor_json(t) == JsonTree::Object(m));
    if code_of(t.dtype.text()) is None {
        lemma_normal_entries(m);
        lemma_whole_normal(ints);
        lemma_whole_plain(ints);
        let ne = normal_entries(m);
        assert(ne[0] == (m[0].0, normal(m[0].1)));
        assert(ne[1] == (m[1].0, normal(m[1].1)));
        assert(ne =~= m);
        lemma_entry_ordered(m, "shape"@);
        lemma_entry_ordered(m, "dtype"@);
        assert forall|i: int| 0 <= i < m.len() implies plain((#[trigger] m[i]).1) && shape_first(
            m[i].1,
        ) by {
            assert(m[i].1 == shape || m[i].1 == name);
        }
    }
}

proof fn lemma_tensors_back(l: Seq<TensorView>)
    requires
        forall|i: int| 0 <= i < l.len() ==> (#[trigger] l[i]).shape.len() <= u64::MAX,
    ensures
        json_tensors(normal_items(tensors_json(l))) == Some(l),
    decreases l.len(),
{
    let a = tensors_json(l);
    lemma_normal_items(a);
    if l.len() > 0 {
        let front = l.drop_last();
        assert(forall|i: int| 0 <= i < front.len() ==> front[i] == l[i]);
        lemma_tensors_back(front);
        lemma_normal_items(tensors_json(front));
        assert(normal_items(a).drop_last() =~= normal_items(tensors_json(front)));
        assert(l[l.len() - 1].shape.len() <= u64::MAX);
        lemma_tensor_back(l.last());
        assert(normal_items(a).last() == normal(tensor_json(l.last())));
        assert(front.push(l.last()) =~= l);
    } else {
        assert(l =~= seq![]);
        assert(normal_items(a) =~= seq![]);
    }
}

proof fn lemma_tensors_plain(l: Seq<TensorView>)
    requires
        l.len() <= u64::MAX,
        forall|i: int| 0 <= i < l.len() ==> (#[trigger] l[i]).shape.len() <= u64::MAX,
    ensures
        plain(JsonTree::Array(tensors_json(l))),
        shape_first(JsonTree::Array(tensors_json(l))),
{
    let a = tensors_json(l);
    assert forall|i: int| 0 <= i < a.len() implies plain(#[trigger] a[i]) && shape_first(a[i]) by {
        assert(l[i].shape.len() <= u64::MAX);
        lemma_tensor_back(l[i]);
        assert(a[i] == tensor_json(l[i]));
    }
    assert(!mistakable(a)) by {
        if a.len() == 2 {
            assert(a[0] == tensor_json(l[0]));
        }
    }
}

proof fn lemma_arg_back(a: ArgView)
    requires
        arg_countable(a),
    ensures
        json_arg(normal(arg_json(a)), kind_of_arg(a)) == Some(a),
        plain(arg_json(a)),
        shape_first(arg_json(a)),
{
    match a {
        ArgView::Tensor(t) => lemma_tensor_back(t),
        ArgView::Optional(Some(t)) => lemma_tensor_back(t),
        ArgView::Optional(None) => {},
        ArgView::List(l) => {
            lemma_tensors_back(l);
            lemma_tensors_plain(l);
        },
        ArgView::Int(n) => {},
        ArgView::Ints(l) => {
            lemma_ints_back(l);
            lemma_whole_normal(ints_json(l));
            lemma_whole_plain(ints_json(l));
        },
        ArgView::Flag(b) => {},
        ArgView::Dtype(k) => law_kind_names(k),
    }
}

proof fn lemma_args_back(args: Seq<ArgView>, kinds: Seq<ArgKind>, n: int)
    requires
        0 <= n <= args.len() == kinds.len(),
        forall|i: int| 0 <= i < args.len() ==> arg_countable(#[trigger] args[i]),
        forall|i: int| 0 <= i < args.len() ==> kind_of_arg(#[trigger] args[i]) == kinds[i],
    ensures
        json_args(normal_items(args_json(args)), kinds, n) == Some(args.take(n)),
    decreases n,
{
    let a = args_json(args);
    lemma_normal_items(a);
    if n > 0 {
        lemma_args_back(args, kinds, n - 1);
        assert(arg_countable(args[n - 1]));
        lemma_arg_back(args[n - 1]);
        assert(normal_items(a)[n - 1] == normal(arg_json(args[n - 1])));
        assert(args.take(n) =~= args.take(n - 1).push(args[n - 1]));
    } else {
        assert(args.take(0) =~= seq![]);
    }
}

/// Whether no name occurs twice.
spec fn distinct_names(names: Seq<Seq<char>>) -> bool {
    forall|i: int, j: int|
        0 <= i < j < names.len() ==> (#[trigger] names[i]) != (#[trigger] names[j])
}

#[verifier::spinoff_prover]
proof fn lemma_field_names(op: TorchOp)
    requires
        op.fields() is Some,
    ensures
        distinct_names(op.fields()->0),
        op.fields()->0.len() == op.takes().len(),
        forall|i: int|
            0 <= i < op.fields()->0.len() ==> (#[trigger] op.fields()->0[i]) != "shape"@,
{
    reveal_strlit("shape");
    reveal_strlit("q");
    reveal_strlit("k");
    reveal_strlit("v");
    reveal_strlit("mask");
    reveal_strlit("causal");
    reveal_strlit("gqa");
    reveal_strlit("bias");
    reveal_strlit("grad");
    reveal_strlit("out");
    reveal_strlit("logsumexp");
    reveal_strlit("max_q");
    reveal_strlit("max_k");
    reveal_strlit("input");
    reveal_strlit("weight");
    reveal_strlit("stride");
    reveal_strlit("padding");
    reveal_strlit("dilation");
    reveal_strlit("groups");
    reveal_strlit("grad_output");
    reveal_strlit("kernel");
    assert("shape"@.len() == 5 && "shape"@[0] == 's');
    assert("q"@.len() == 1 && "q"@[0] == 'q');
    assert("k"@.len() == 1 && "k"@[0] == 'k');
    assert("v"@.len() == 1 && "v"@[0] == 'v');
    assert("mask"@.len() == 4 && "mask"@[0] == 'm');
    assert("bias"@.len() == 4 && "bias"@[0] == 'b');
    assert("grad"@.len() == 4 && "grad"@[0] == 'g');
    assert("causal"@.len() == 6 && "causal"@[0] == 'c');
    assert("gqa"@.len() == 3 && "gqa"@[0] == 'g');
    assert("out"@.len() == 3 && "out"@[0] == 'o');
    assert("logsumexp"@.len() == 9);
    assert("max_q"@.len() == 5 && "max_q"@[4] == 'q' && "max_q"@[0] == 'm');
    assert("max_k"@.len() == 5 && "max_k"@[4] == 'k' && "max_k"@[0] == 'm');
    assert("input"@.len() == 5 && "input"@[0] == 'i');
    assert("weight"@.len() == 6 && "weight"@[0] == 'w');
    assert("stride"@.len() == 6 && "stride"@[0] == 's');
    assert("kernel"@.len() == 6 && "kernel"@[0] == 'k');
    assert("groups"@.len() == 6 && "groups"@[0] == 'g');
    assert("padding"@.len() == 7);
    assert("dilation"@.len() == 8);
    assert("grad_output"@.len() == 11);
}

/// What the entries of named arguments are.
proof fn lemma_fields(names: Seq<Seq<char>>, args: Seq<ArgView>, n: int)
    requires
        0 <= n <= args.len() == names.len(),
        distinct_names(names),
    ensures
        distinct_keys(fields_json(names, args, n)),
        forall|j: int|
            0 <= j < fields_json(names, args, n).len() ==> exists|i: int|
                0 <= i < n && (#[trigger] fields_json(names, args, n)[j]) == (
                    names[i],
                    arg_json(args[i]),
                ) && !left_out(names[i], args[i]),
        forall|i: int|
            0 <= i < n && !left_out(#[trigger] names[i], args[i]) ==> fields_json(
                names,
                args,
                n,
            ).contains((names[i], arg_json(args[i]))),
    decreases n,
{
    if n > 0 {
        lemma_fields(names, args, n - 1);
        let before = fields_json(names, args, n - 1);
        let after = fields_json(names, args, n);
        let last = (names[n - 1], arg_json(args[n - 1]));
        if left_out(names[n - 1], args[n - 1]) {
            assert(after == before);
            assert forall|j: int| 0 <= j < after.len() implies exists|i: int|
                0 <= i < n && (#[trigger] after[j]) == (names[i], arg_json(args[i])) && !left_out(
                    names[i],
                    args[i],
                ) by {
                let i = choose|i: int|
                    0 <= i < n - 1 && before[j] == (names[i], arg_json(args[i])) && !left_out(
                        names[i],
                        args[i],
                    );
                assert(after[j] == (names[i], arg_json(args[i])));
            }
        } else {
            assert(after == before.push(last));
            assert forall|j: int| 0 <= j < after.len() implies exists|i: int|
                0 <= i < n && (#[trigger] after[j]) == (names[i], arg_json(args[i])) && !left_out(
                    names[i],
                    args[i],
                ) by {
                if j < before.len() {
                    let i = choose|i: int|
                        0 <= i < n - 1 && before[j] == (names[i], arg_json(args[i]))
                            && !left_out(names[i], args[i]);
                    assert(after[j] == (names[i], arg_json(args[i])));
                } else {
                    assert(after[j] == (names[n - 1], arg_json(args[n - 1])));
                }
            }
            assert forall|j: int| 0 <= j < before.len() implies (#[trigger] before[j]).0
                != last.0 by {
                let i = choose|i: int|
                    0 <= i < n - 1 && before[j] == (names[i], arg_json(args[i])) && !left_out(
                        names[i],
                        args[i],
                    );
                assert(names[i] != names[n - 1]);
            }
            assert forall|i: int| 0 <= i < n && !left_out(#[trigger] names[i], args[i]) implies
                after.contains((names[i], arg_json(args[i]))) by {
                if i < n - 1 {
                    assert(before.contains((names[i], arg_json(args[i]))));
                    let j = choose|j: int|
                        0 <= j < before.len() && before[j] == (names[i], arg_json(args[i]));
                    assert(after[j] == (names[i], arg_json(args[i])));
                } else {
                    assert(after[before.len() as int] == last);
                }
            }
        }
    }
}

proof fn lemma_field_back(
    names: Seq<Seq<char>>,
    args: Seq<ArgView>,
    kinds: Seq<ArgKind>,
    i: int,
)
    requires
        0 <= i < args.len() == names.len(),
        kinds.len() == args.len(),
        distinct_names(names),
        arg_countable(args[i]),
        kind_of_arg(args[i]) == kinds[i],
    ensures
        json_field(
            in_order::<KeyEntry>(normal_entries(fields_json(names, args, args.len() as int))),
            names[i],
            kinds[i],
        ) == Some(args[i]),
{
    let m = fields_json(names, args, args.len() as int);
    let ne = normal_entries(m);
    lemma_fields(names, args, args.len() as int);
    lemma_normal_entries(m);
    assert(distinct_keys(ne)) by {
        assert forall|a: int, b: int| 0 <= a < b < ne.len() implies (#[trigger] ne[a]).0 != (
        #[trigger] ne[b]).0 by {
            assert(ne[a] == (m[a].0, normal(m[a].1)));
            assert(ne[b] == (m[b].0, normal(m[b].1)));
            assert(m[a].0 != m[b].0);
        }
    }
    lemma_entry_ordered(ne, names[i]);
    if left_out(names[i], args[i]) {
        assert forall|j: int| 0 <= j < ne.len() implies (#[trigger] ne[j]).0 != names[i] by {
            assert(ne[j] == (m[j].0, normal(m[j].1)));
            let k = choose|k: int|
                0 <= k < args.len() && m[j] == (names[k], arg_json(args[k])) && !left_out(
                    names[k],
                    args[k],
                );
            if k < i {
                assert(names[k] != names[i]);
            } else if k > i {
                assert(names[i] != names[k]);
            }
        }
        lemma_entry_missing(ne, names[i]);
    } else {
        assert(m.contains((names[i], arg_json(args[i]))));
        let j = choose|j: int| 0 <= j < m.len() && m[j] == (names[i], arg_json(args[i]));
        assert(ne[j] == (m[j].0, normal(m[j].1)));
        lemma_entry_found(ne, j);
        lemma_arg_back(args[i]);
    }
}

proof fn lemma_fields_back(
    names: Seq<Seq<char>>,
    args: Seq<ArgView>,
    kinds: Seq<ArgKind>,
    n: int,
)
    requires
        0 <= n <= args.len() == names.len(),
        kinds.len() == args.len(),
        distinct_names(names),
        forall|i: int| 0 <= i < args.len() ==> arg_countable(#[trigger] args[i]),
        forall|i: int| 0 <= i < args.len() ==> kind_of_arg(#[trigger] args[i]) == kinds[i],
    ensures
        json_fields(
            in_order::<KeyEntry>(normal_entries(fields_json(names, args, args.len() as int))),
            names,
            kinds,
            n,
        ) == Some(args.take(n)),
    decreases n,
{
    if n > 0 {
        lemma_fields_back(names, args, kinds, n - 1);
        assert(arg_countable(args[n - 1]));
        assert(kind_of_arg(args[n - 1]) == kinds[n - 1]);
        lemma_field_back(names, args, kinds, n - 1);
        assert(args.take(n) =~= args.take(n - 1).push(args[n - 1]));
    } else {
        assert(args.take(0) =~= seq![]);
    }
}

/// The first argument of an operator is no element type.
proof fn lemma_first_kind(op: TorchOp)
    ensures
        op.takes().len() > 0,
        op.takes().len() <= 9,
        op.takes()[0] != ArgKind::Dtype,
{
}

proof fn lemma_body_back(c: CallView)
    requires
        valid_call(c),
    ensures
        json_body(normal(body_json(c)), c.op) == Some(c.args),
        plain(body_json(c)),
        shape_first(body_json(c)),
{
    let kinds = c.op.takes();
    let n = kinds.len() as int;
    lemma_first_kind(c.op);
    assert(c.args.take(n) =~= c.args);
    if let Some(names) = c.op.fields() {
        let m = fields_json(names, c.args, n);
        lemma_field_names(c.op);
        lemma_fields(names, c.args, n);
        lemma_fields_back(names, c.args, kinds, n);
        assert(tensor_parts(m) is None) by {
            assert forall|j: int| 0 <= j < m.len() implies (#[trigger] m[j]).0 != "shape"@ by {
                let i = choose|i: int|
                    0 <= i < n && m[j] == (names[i], arg_json(c.args[i])) && !left_out(
                        names[i],
                        c.args[i],
                    );
                assert(names[i] != "shape"@);
            }
            lemma_entry_missing(m, "shape"@);
        }
        assert forall|j: int| 0 <= j < m.len() implies plain((#[trigger] m[j]).1) && shape_first(
            m[j].1,
        ) by {
            let i = choose|i: int|
                0 <= i < n && m[j] == (names[i], arg_json(c.args[i])) && !left_out(
                    names[i],
                    c.args[i],
                );
            assert(arg_countable(c.args[i]));
            lemma_arg_back(c.args[i]);
        }
        lemma_named_args(c.op);
        assert(m.len() > 1) by {
            lemma_fields_len(names, c.args, n);
        }
    } else if n == 1 {
        assert(arg_countable(c.args[0]));
        assert(kind_of_arg(c.args[0]) == kinds[0]);
        lemma_arg_back(c.args[0]);
        assert(seq![c.args[0]] =~= c.args);
    } else {
        let a = args_json(c.args);
        lemma_args_back(c.args, kinds, n);
        lemma_normal_items(a);
        assert forall|i: int| 0 <= i < a.len() implies plain(#[trigger] a[i]) && shape_first(
            a[i],
        ) by {
            assert(arg_countable(c.args[i]));
            lemma_arg_back(c.args[i]);
            assert(a[i] == arg_json(c.args[i]));
        }
        assert(!mistakable(a)) by {
            assert(kind_of_arg(c.args[0]) == kinds[0]);
            assert(a[0] == arg_json(c.args[0]));
        }
    }
}

proof fn lemma_named_args(op: TorchOp)
    ensures
        op.fields() is Some ==> op.takes().len() >= 5,
{
}

/// All arguments but the mask have an entry.
proof fn lemma_fields_len(names: Seq<Seq<char>>, args: Seq<ArgView>, n: int)
    requires
        0 <= n <= args.len() == names.len(),
        distinct_names(names),
    ensures
        n - 1 <= fields_json(names, args, n).len() <= n,
        (forall|i: int| 0 <= i < n ==> (#[trigger] names[i]) != "mask"@) ==> fields_json(
            names,
            args,
            n,
        ).len() == n,
    decreases n,
{
    if n > 0 {
        lemma_fields_len(names, args, n - 1);
        if left_out(names[n - 1], args[n - 1]) {
            assert forall|i: int| 0 <= i < n - 1 implies (#[trigger] names[i]) != "mask"@ by {
                assert(names[i] != names[n - 1]);
            }
        }
    }
}

/// No part of the value of a call could be taken for the short form of another.
proof fn lemma_call_plain(c: CallView)
    requires
        valid_call(c),
    ensures
        plain(call_json(c)),
        shape_first(call_json(c)),
{
    let m = seq![(c.op.text(), body_json(c))];
    lemma_body_back(c);
    law_op_names(c.op);
    reveal_strlit("R");
    assert("R"@.len() == 1);
    assert(tensor_parts(m) is None);
    assert forall|i: int| 0 <= i < m.len() implies plain((#[trigger] m[i]).1) && shape_first(
        m[i].1,
    ) by {
        assert(m[i].1 == body_json(c));
    }
}

/// Bringing the value of a call into short form loses nothing: bringing it out of short
/// form gives the same value.
pub proof fn law_call_value_restored(c: CallView)
    requires
        valid_call(c),
    ensures
        expanded(compacted(call_json(c))) == call_json(c),
{
    lemma_call_plain(c);
    law_expand_inverts_compact(call_json(c));
}

/// A call is read back from the value in short form, with sorted keys, under which it
/// is recorded.
pub proof fn law_call_read_back(c: CallView)
    requires
        valid_call(c),
    ensures
        json_call(expanded(key_sorted(compacted(call_json(c))))) == Some(c),
{
    let m = seq![(c.op.text(), body_json(c))];
    lemma_body_back(c);
    law_op_names(c.op);
    lemma_call_plain(c);
    law_sorted_form_restored(call_json(c));
    lemma_normal_entries(m);
    let ne = normal_entries(m);
    assert(ne[0] == (m[0].0, normal(m[0].1)));
    lemma_one_in_order(ne);
    assert(normal(call_json(c)) == JsonTree::Object(ne));
}

proof fn lemma_tensor_shape(t: TensorView)
    ensures
        proper(tensor_json(t)),
        whole(tensor_json(t)),
        nested(tensor_json(t), 2),
{
    let ints = ints_json(t.shape);
    let shape = JsonTree::Array(ints);
    let name = JsonTree::Text(t.dtype.text());
    let m = seq![("shape"@, shape), ("dtype"@, name)];
    lemma_tensor_entries(shape, name);
    assert forall|i: int| 0 <= i < ints.len() implies proper(#[trigger] ints[i]) && whole(ints[i])
        && nested(ints[i], 0) by {
        assert(ints[i] == int_json(t.shape[i]));
    }
    assert forall|i: int| 0 <= i < m.len() implies proper((#[trigger] m[i]).1) && whole(m[i].1)
        && nested(m[i].1, 1) by {
        assert(m[i].1 == shape || m[i].1 == name);
    }
}

proof fn lemma_arg_shape(a: ArgView)
    ensures
        proper(arg_json(a)),
        whole(arg_json(a)),
        nested(arg_json(a), 3),
{
    match a {
        ArgView::Tensor(t) => {
            lemma_tensor_shape(t);
            lemma_nested_more(tensor_json(t), 2, 3);
        },
        ArgView::Optional(Some(t)) => {
            lemma_tensor_shape(t);
            lemma_nested_more(tensor_json(t), 2, 3);
        },
        ArgView::List(l) => {
            let b = tensors_json(l);
            assert forall|i: int| 0 <= i < b.len() implies proper(#[trigger] b[i]) && whole(b[i])
                && nested(b[i], 2) by {
                lemma_tensor_shape(l[i]);
                assert(b[i] == tensor_json(l[i]));
            }
        },
        ArgView::Ints(l) => {
            let b = ints_json(l);
            assert forall|i: int| 0 <= i < b.len() implies proper(#[trigger] b[i]) && whole(b[i])
                && nested(b[i], 2) by {
                assert(b[i] == int_json(l[i]));
            }
        },
        _ => {},
    }
}

/// The value under which a call is recorded can be written as a text and read back.
pub proof fn lemma_key_shape(c: CallView)
    requires
        well_typed(c),
    ensures
        proper(call_json(c)),
        proper(compacted(call_json(c))),
        proper(key_sorted(compacted(call_json(c)))),
        whole(key_sorted(compacted(call_json(c)))),
        nested(key_sorted(compacted(call_json(c))), 127),
{
    let body = body_json(c);
    assert forall|i: int| 0 <= i < c.args.len() implies proper(arg_json(#[trigger] c.args[i]))
        && whole(arg_json(c.args[i])) && nested(arg_json(c.args[i]), 3) by {
        lemma_arg_shape(c.args[i]);
    }
    assert(proper(body) && whole(body) && nested(body, 4)) by {
        if let Some(names) = c.op.fields() {
            let m = fields_json(names, c.args, c.args.len() as int);
            lemma_field_names(c.op);
            lemma_fields(names, c.args, c.args.len() as int);
            assert forall|j: int| 0 <= j < m.len() implies proper((#[trigger] m[j]).1) && whole(
                m[j].1,
            ) && nested(m[j].1, 3) by {
                let i = choose|i: int|
                    0 <= i < c.args.len() && m[j] == (names[i], arg_json(c.args[i])) && !left_out(
                        names[i],
                        c.args[i],
                    );
                assert(proper(arg_json(c.args[i])));
            }
        } else if c.args.len() == 1 {
            assert(proper(arg_json(c.args[0])));
            lemma_nested_more(arg_json(c.args[0]), 3, 4);
        } else {
            let a = args_json(c.args);
            assert forall|i: int| 0 <= i < a.len() implies proper(#[trigger] a[i]) && whole(a[i])
                && nested(a[i], 3) by {
                assert(a[i] == arg_json(c.args[i]));
                assert(proper(arg_json(c.args[i])));
            }
        }
    }
    let m = seq![(c.op.text(), body)];
    let t = call_json(c);
    assert(proper(t) && whole(t) && nested(t, 5)) by {
        assert forall|i: int| 0 <= i < m.len() implies proper((#[trigger] m[i]).1) && whole(m[i].1)
            && nested(m[i].1, 4) by {
            assert(m[i].1 == body);
        }
    }
    lemma_compacted_shape(t, 5);
    lemma_sorted_shape(compacted(t), 15);
    lemma_nested_more(key_sorted(compacted(t)), 15, 127);
}

proof fn lemma_read_fields(
    m: Seq<(Seq<char>, JsonTree)>,
    names: Seq<Seq<char>>,
    kinds: Seq<ArgKind>,
    n: int,
)
    requires
        0 <= n,
        json_fields(m, names, kinds, n) is Some,
    ensures
        json_fields(m, names, kinds, n)->0.len() == n,
        forall|i: int|
            0 <= i < n ==> kind_of_arg(#[trigger] (json_fields(m, names, kinds, n)->0)[i])
                == kinds[i],
    decreases n,
{
    if n > 0 {
        lemma_read_fields(m, names, kinds, n - 1);
    }
}

proof fn lemma_read_args(a: Seq<JsonTree>, kinds: Seq<ArgKind>, n: int)
    requires
        0 <= n,
        json_args(a, kinds, n) is Some,
    ensures
        json_args(a, kinds, n)->0.len() == n,
        forall|i: int|
            0 <= i < n ==> kind_of_arg(#[trigger] (json_args(a, kinds, n)->0)[i]) == kinds[i],
    decreases n,
{
    if n > 0 {
        lemma_read_args(a, kinds, n - 1);
    }
}

/// A call that is read has the arguments that its operator takes.
pub proof fn law_read_call_well_typed(t: JsonTree)
    requires
        json_call(t) is Some,
    ensures
        well_typed(json_call(t)->0),
{
    let c = json_call(t)->0;
    let kinds = c.op.takes();
    let n = kinds.len() as int;
    let body = t->Object_0[0].1;
    if let Some(names) = c.op.fields() {
        lemma_read_fields(body->Object_0, names, kinds, n);
    } else if n != 1 {
        lemma_read_args(body->Array_0, kinds, n);
    }
}

/// The lists in a call that is held in memory can be counted.
pub proof fn lemma_held_call(c: TorchCallInfo)
    requires
        well_typed(c@),
    ensures
        valid_call(c@),
{
    assert forall|i: int| 0 <= i < c@.args.len() implies arg_countable(#[trigger] c@.args[i]) by {
        match c.args@[i] {
            TorchArg::Tensor(t) => {
                assert(t.shape.len() == t.shape@.len());
            },
            TorchArg::Optional(Some(t)) => {
                assert(t.shape.len() == t.shape@.len());
            },
            TorchArg::List(l) => {
                assert(l.len() == l@.len());
                assert forall|j: int| 0 <= j < tensor_views(l@).len() implies (
                #[trigger] tensor_views(l@)[j]).shape.len() <= u64::MAX by {
                    assert(l@[j].shape.len() == l@[j].shape@.len());
                }
            },
            TorchArg::Ints(l) => {
                assert(l.len() == l@.len());
            },
            _ => {},
        }
    }
}

} // verus!
