//! What can be read: which texts are numbers, which trees are calls, and what a description
//! names.

use crate::json::{JsonNumber, JsonTree};
use crate::lines::{begins_with, split_text, trimmed};
use crate::perf_db::call_json::{
    json_arg, json_args, json_body, json_call, json_field, json_fields, json_int, json_ints,
    json_tensor, json_tensors,
};
use crate::perf_db::codec::entry;
use crate::perf_db::manifest::{gpu_in, manifest_gpu};
use crate::text::{all_digits, bool_value, digits_value, i32_value, is_digit, unsigned_value};
use crate::torch_call::{ArgView, CallView, Kind, TensorView, TorchOp};
use crate::torch_op::{kind_of, law_kind_names, law_op_names, ArgKind};
use vstd::prelude::*;

verus! {

/// Every digit counts ten times what the one behind it does.
pub proof fn law_digits_read(s: Seq<char>, c: char)
    requires
        is_digit(c),
    ensures
        digits_value(seq![]) == 0,
        digits_value(s.push(c)) == 10 * digits_value(s) + (c as int - '0' as int),
{
    assert(s.push(c).drop_last() =~= s);
}

/// A number that is not negative is a row of digits, with a plus sign in front or without
/// one, whose value is not too large; nothing else is.
pub proof fn law_unsigned_read(s: Seq<char>, digits: Seq<char>, max: nat)
    requires
        all_digits(digits),
    ensures
        digits_value(digits) <= max ==> unsigned_value(digits, max) == Some(digits_value(digits))
            && unsigned_value(seq!['+'] + digits, max) == Some(digits_value(digits)),
        digits_value(digits) > max ==> unsigned_value(digits, max) is None && unsigned_value(
            seq!['+'] + digits,
            max,
        ) is None,
        unsigned_value(s, max) is Some ==> all_digits(s) || (s.len() > 0 && s[0] == '+'
            && all_digits(s.skip(1))),
{
    assert(is_digit(digits[0]));
    assert((seq!['+'] + digits).skip(1) =~= digits);
}

/// A number is a row of digits, with a sign in front or without one, that lies within
/// range; a minus sign makes it negative.
pub proof fn law_signed_read(s: Seq<char>, digits: Seq<char>)
    requires
        all_digits(digits),
    ensures
        digits_value(digits) <= i32::MAX ==> i32_value(digits) == Some(digits_value(digits) as i32)
            && i32_value(seq!['+'] + digits) == Some(digits_value(digits) as i32),
        digits_value(digits) > i32::MAX ==> i32_value(digits) is None,
        digits_value(digits) <= i32::MAX + 1 ==> i32_value(seq!['-'] + digits) == Some(
            (-(digits_value(digits) as int)) as i32,
        ),
        digits_value(digits) > i32::MAX + 1 ==> i32_value(seq!['-'] + digits) is None,
        i32_value(s) is Some ==> all_digits(s) || (s.len() > 0 && (s[0] == '+' || s[0] == '-')
            && all_digits(s.skip(1))),
{
    assert(is_digit(digits[0]));
    assert((seq!['+'] + digits).skip(1) =~= digits);
    assert((seq!['-'] + digits).skip(1) =~= digits);
}

/// A flag is one of two words.
pub proof fn law_flags_read(s: Seq<char>)
    ensures
        bool_value(s) == Some(true) <==> s == "true"@,
        bool_value(s) == Some(false) <==> s == "false"@,
{
    reveal_strlit("true");
    reveal_strlit("false");
    assert("true"@.len() != "false"@.len());
}

/// The first entry of an object that has a key is the one that counts.
pub proof fn law_first_entry_counts(m: Seq<(Seq<char>, JsonTree)>, key: Seq<char>, i: int)
    ensures
        0 <= i < m.len() && m[i].0 == key && (forall|j: int|
            0 <= j < i ==> (#[trigger] m[j]).0 != key) ==> entry(m, key, 0) == Some(m[i].1),
        (forall|j: int| 0 <= j < m.len() ==> (#[trigger] m[j]).0 != key) ==> entry(
            m,
            key,
            0,
        ) is None,
{
    if 0 <= i < m.len() && m[i].0 == key && (forall|j: int|
        0 <= j < i ==> (#[trigger] m[j]).0 != key) {
        lemma_entry_at(m, key, 0, i);
    }
    if forall|j: int| 0 <= j < m.len() ==> (#[trigger] m[j]).0 != key {
        lemma_no_entry(m, key, 0);
    }
}

proof fn lemma_entry_at(m: Seq<(Seq<char>, JsonTree)>, key: Seq<char>, from: int, i: int)
    requires
        0 <= from <= i < m.len(),
        m[i].0 == key,
        forall|j: int| from <= j < i ==> (#[trigger] m[j]).0 != key,
    ensures
        entry(m, key, from) == Some(m[i].1),
    decreases i - from,
{
    if from < i {
        assert(m[from].0 != key);
        lemma_entry_at(m, key, from + 1, i);
    }
}

proof fn lemma_no_entry(m: Seq<(Seq<char>, JsonTree)>, key: Seq<char>, from: int)
    requires
        0 <= from <= m.len(),
        forall|j: int| from <= j < m.len() ==> (#[trigger] m[j]).0 != key,
    ensures
        entry(m, key, from) is None,
    decreases m.len() - from,
{
    if from < m.len() {
        assert(m[from].0 != key);
        lemma_no_entry(m, key, from + 1);
    }
}

/// The whole number that a tree is, if it is one.
pub open spec fn is_int(t: JsonTree, n: i64) -> bool {
    match t {
        JsonTree::Number(JsonNumber::PosInt(x)) => x == n,
        JsonTree::Number(JsonNumber::NegInt(x)) => x == n,
        _ => false,
    }
}

/// Whether a tree is a list of whole numbers.
pub open spec fn are_ints(t: JsonTree, l: Seq<i64>) -> bool {
    &&& t matches JsonTree::Array(a)
    &&& a.len() == l.len()
    &&& forall|i: int| 0 <= i < l.len() ==> is_int(#[trigger] a[i], l[i])
}

/// Whether a tree is an object whose shape and element type are those of a tensor.
pub open spec fn is_tensor(t: JsonTree, x: TensorView) -> bool {
    &&& t matches JsonTree::Object(m)
    &&& entry(m, "shape"@, 0) matches Some(shape)
    &&& are_ints(shape, x.shape)
    &&& entry(m, "dtype"@, 0) == Some(JsonTree::Text(x.dtype.text()))
}

proof fn lemma_int_read(t: JsonTree, n: i64)
    ensures
        json_int(t) == Some(n) <==> is_int(t, n),
{
}

proof fn lemma_ints_read(a: Seq<JsonTree>, l: Seq<i64>)
    ensures
        json_ints(a) == Some(l) <==> are_ints(JsonTree::Array(a), l),
    decreases a.len(),
{
    if a.len() == 0 {
        if l.len() == 0 {
            assert(l =~= seq![]);
        }
    } else {
        let front = a.drop_last();
        if json_ints(a) == Some(l) {
            let before = json_ints(front)->0;
            lemma_ints_read(front, before);
            lemma_int_read(a.last(), l.last());
            assert(l == before.push(l.last()));
            assert forall|i: int| 0 <= i < l.len() implies is_int(#[trigger] a[i], l[i]) by {
                if i < before.len() {
                    assert(is_int(front[i], before[i]));
                }
            }
        }
        if are_ints(JsonTree::Array(a), l) {
            let before = l.drop_last();
            assert forall|i: int| 0 <= i < before.len() implies is_int(
                #[trigger] front[i],
                before[i],
            ) by {
                assert(is_int(a[i], l[i]));
            }
            lemma_ints_read(front, before);
            assert(is_int(a[a.len() - 1], l[l.len() - 1]));
            lemma_int_read(a.last(), l.last());
            assert(before.push(l.last()) =~= l);
        }
    }
}

proof fn lemma_kind_read(name: Seq<char>, k: Kind)
    ensures
        kind_of(name) == Some(k) <==> name == k.text(),
{
    law_kind_names(k);
}

proof fn lemma_tensor_read(t: JsonTree, x: TensorView)
    ensures
        json_tensor(t) == Some(x) <==> is_tensor(t, x),
{
    if let JsonTree::Object(m) = t {
        match (entry(m, "shape"@, 0), entry(m, "dtype"@, 0)) {
            (Some(JsonTree::Array(a)), Some(JsonTree::Text(name))) => {
                lemma_ints_read(a, x.shape);
                lemma_kind_read(name, x.dtype);
            },
            _ => {},
        }
    }
}

/// Whether a tree is a list of tensors.
pub open spec fn are_tensors(t: JsonTree, l: Seq<TensorView>) -> bool {
    &&& t matches JsonTree::Array(a)
    &&& a.len() == l.len()
    &&& forall|i: int| 0 <= i < l.len() ==> is_tensor(#[trigger] a[i], l[i])
}

proof fn lemma_tensors_read(a: Seq<JsonTree>, l: Seq<TensorView>)
    ensures
        json_tensors(a) == Some(l) <==> are_tensors(JsonTree::Array(a), l),
    decreases a.len(),
{
    if a.len() == 0 {
        if l.len() == 0 {
            assert(l =~= seq![]);
        }
    } else {
        let front = a.drop_last();
        if json_tensors(a) == Some(l) {
            let before = json_tensors(front)->0;
            lemma_tensors_read(front, before);
            lemma_tensor_read(a.last(), l.last());
            assert(l == before.push(l.last()));
            assert forall|i: int| 0 <= i < l.len() implies is_tensor(#[trigger] a[i], l[i]) by {
                if i < before.len() {
                    assert(is_tensor(front[i], before[i]));
                }
            }
        }
        if are_tensors(JsonTree::Array(a), l) {
            let before = l.drop_last();
            assert forall|i: int| 0 <= i < before.len() implies is_tensor(
                #[trigger] front[i],
                before[i],
            ) by {
                assert(is_tensor(a[i], l[i]));
            }
            lemma_tensors_read(front, before);
            assert(is_tensor(a[a.len() - 1], l[l.len() - 1]));
            lemma_tensor_read(a.last(), l.last());
            assert(before.push(l.last()) =~= l);
        }
    }
}

/// Whether a tree is an argument.
pub open spec fn is_arg(t: JsonTree, kind: ArgKind, a: ArgView) -> bool {
    match a {
        ArgView::Tensor(x) => kind == ArgKind::Tensor && is_tensor(t, x),
        ArgView::Optional(None) => kind == ArgKind::Optional && t is Null,
        ArgView::Optional(Some(x)) => kind == ArgKind::Optional && is_tensor(t, x),
        ArgView::List(l) => kind == ArgKind::List && are_tensors(t, l),
        ArgView::Int(n) => kind == ArgKind::Int && is_int(t, n),
        ArgView::Ints(l) => kind == ArgKind::Ints && are_ints(t, l),
        ArgView::Flag(b) => kind == ArgKind::Flag && t == JsonTree::Bool(b),
        ArgView::Dtype(k) => kind == ArgKind::Dtype && t == JsonTree::Text(k.text()),
    }
}

/// An argument is read exactly where the tree is one of the kind that is asked for.
pub proof fn law_arguments_read(t: JsonTree, kind: ArgKind, a: ArgView)
    ensures
        json_arg(t, kind) == Some(a) <==> is_arg(t, kind, a),
{
    match a {
        ArgView::Tensor(x) => lemma_tensor_read(t, x),
        ArgView::Optional(Some(x)) => lemma_tensor_read(t, x),
        ArgView::List(l) => {
            if let JsonTree::Array(items) = t {
                lemma_tensors_read(items, l);
            }
        },
        ArgView::Int(n) => lemma_int_read(t, n),
        ArgView::Ints(l) => {
            if let JsonTree::Array(items) = t {
                lemma_ints_read(items, l);
            }
        },
        ArgView::Dtype(k) => {
            if let JsonTree::Text(name) = t {
                lemma_kind_read(name, k);
            }
        },
        _ => {},
    }
}

/// Whether an object has an argument under a name; one that may be left out is when
/// nothing has the name.
pub open spec fn has_arg(
    m: Seq<(Seq<char>, JsonTree)>,
    name: Seq<char>,
    kind: ArgKind,
    a: ArgView,
) -> bool {
    match entry(m, name, 0) {
        Some(t) => is_arg(t, kind, a),
        None => kind == ArgKind::Optional && a == ArgView::Optional(None),
    }
}

proof fn lemma_fields_read(
    m: Seq<(Seq<char>, JsonTree)>,
    names: Seq<Seq<char>>,
    kinds: Seq<ArgKind>,
    n: int,
    args: Seq<ArgView>,
)
    requires
        0 <= n,
    ensures
        json_fields(m, names, kinds, n) == Some(args) <==> args.len() == n && forall|i: int|
            0 <= i < n ==> has_arg(m, names[i], kinds[i], #[trigger] args[i]),
    decreases n,
{
    if n == 0 {
        if args.len() == 0 {
            assert(args =~= seq![]);
        }
    } else {
        if json_fields(m, names, kinds, n) == Some(args) {
            let before = json_fields(m, names, kinds, n - 1)->0;
            lemma_fields_read(m, names, kinds, n - 1, before);
            assert(args == before.push(args.last()));
            lemma_field_read(m, names[n - 1], kinds[n - 1], args[n - 1]);
            assert forall|i: int| 0 <= i < n implies has_arg(
                m,
                names[i],
                kinds[i],
                #[trigger] args[i],
            ) by {
                if i < n - 1 {
                    assert(has_arg(m, names[i], kinds[i], before[i]));
                }
            }
        }
        if args.len() == n && forall|i: int|
            0 <= i < n ==> has_arg(m, names[i], kinds[i], #[trigger] args[i]) {
            let before = args.drop_last();
            assert forall|i: int| 0 <= i < n - 1 implies has_arg(
                m,
                names[i],
                kinds[i],
                #[trigger] before[i],
            ) by {
                assert(has_arg(m, names[i], kinds[i], args[i]));
            }
            lemma_fields_read(m, names, kinds, n - 1, before);
            lemma_field_read(m, names[n - 1], kinds[n - 1], args[n - 1]);
            assert(before.push(args.last()) =~= args);
        }
    }
}

proof fn lemma_field_read(
    m: Seq<(Seq<char>, JsonTree)>,
    name: Seq<char>,
    kind: ArgKind,
    a: ArgView,
)
    ensures
        json_field(m, name, kind) == Some(a) <==> has_arg(m, name, kind, a),
{
    if let Some(t) = entry(m, name, 0) {
        law_arguments_read(t, kind, a);
    }
}

proof fn lemma_args_read(a: Seq<JsonTree>, kinds: Seq<ArgKind>, n: int, args: Seq<ArgView>)
    requires
        0 <= n,
    ensures
        json_args(a, kinds, n) == Some(args) <==> args.len() == n && forall|i: int|
            0 <= i < n ==> is_arg(a[i], kinds[i], #[trigger] args[i]),
    decreases n,
{
    if n == 0 {
        if args.len() == 0 {
            assert(args =~= seq![]);
        }
    } else {
        if json_args(a, kinds, n) == Some(args) {
            let before = json_args(a, kinds, n - 1)->0;
            lemma_args_read(a, kinds, n - 1, before);
            assert(args == before.push(args.last()));
            law_arguments_read(a[n - 1], kinds[n - 1], args[n - 1]);
            assert forall|i: int| 0 <= i < n implies is_arg(a[i], kinds[i], #[trigger] args[i]) by {
                if i < n - 1 {
                    assert(is_arg(a[i], kinds[i], before[i]));
                }
            }
        }
        if args.len() == n && forall|i: int|
            0 <= i < n ==> is_arg(a[i], kinds[i], #[trigger] args[i]) {
            let before = args.drop_last();
            assert forall|i: int| 0 <= i < n - 1 implies is_arg(
                a[i],
                kinds[i],
                #[trigger] before[i],
            ) by {
                assert(is_arg(a[i], kinds[i], args[i]));
            }
            lemma_args_read(a, kinds, n - 1, before);
            law_arguments_read(a[n - 1], kinds[n - 1], args[n - 1]);
            assert(before.push(args.last()) =~= args);
        }
    }
}

/// Whether a tree has the arguments of an operator: by their names where they have names,
/// else as the one argument or as a list of them.
pub open spec fn has_args(t: JsonTree, op: TorchOp, args: Seq<ArgView>) -> bool {
    let kinds = op.takes();
    &&& args.len() == kinds.len()
    &&& match op.fields() {
        Some(names) => t matches JsonTree::Object(m) && forall|i: int|
            0 <= i < args.len() ==> has_arg(m, names[i], kinds[i], #[trigger] args[i]),
        None => if kinds.len() == 1 {
            is_arg(t, kinds[0], args[0])
        } else {
            t matches JsonTree::Array(a) && a.len() == args.len() && forall|i: int|
                0 <= i < args.len() ==> is_arg(a[i], kinds[i], #[trigger] args[i])
        },
    }
}

/// A tree is a call exactly where it is an object with one entry, under the name of an
/// operator, that has the arguments which the operator takes.
pub proof fn law_calls_read(t: JsonTree, c: CallView)
    ensures
        json_call(t) == Some(c) <==> {
            &&& t matches JsonTree::Object(m)
            &&& m.len() == 1
            &&& m[0].0 == c.op.text()
            &&& has_args(m[0].1, c.op, c.args)
        },
{
    if let JsonTree::Object(m) = t {
        if m.len() == 1 {
            law_op_names(c.op);
            lemma_body_read(m[0].1, c.op, c.args);
        }
    }
}

proof fn lemma_body_read(t: JsonTree, op: TorchOp, args: Seq<ArgView>)
    ensures
        json_body(t, op) == Some(args) <==> has_args(t, op, args),
{
    let kinds = op.takes();
    let n = kinds.len() as int;
    match op.fields() {
        Some(names) => {
            if let JsonTree::Object(m) = t {
                lemma_fields_read(m, names, kinds, n, args);
            }
        },
        None => {
            if n == 1 {
                if args.len() == 1 {
                    law_arguments_read(t, kinds[0], args[0]);
                    assert(args =~= seq![args[0]]);
                }
                if let Some(a) = json_arg(t, kinds[0]) {
                    law_arguments_read(t, kinds[0], a);
                }
            } else if let JsonTree::Array(a) = t {
                lemma_args_read(a, kinds, n, args);
            }
        },
    }
}

/// The last line of a description that names a GPU is the one that counts; without one no
/// GPU is named.
pub proof fn law_last_name_counts(text: Seq<char>, i: int)
    ensures
        ({
            let lines = split_text(text, '\n');
            let prefix = "- **GPU:** "@;
            &&& 0 <= i < lines.len() && begins_with(lines[i], prefix) && (forall|j: int|
                i < j < lines.len() ==> !begins_with(#[trigger] lines[j], prefix)) ==> manifest_gpu(
                text,
            ) == trimmed(lines[i].skip(prefix.len() as int))
            &&& (forall|j: int| 0 <= j < lines.len() ==> !begins_with(#[trigger] lines[j], prefix))
                ==> manifest_gpu(text).len() == 0
        }),
{
    let lines = split_text(text, '\n');
    let n = lines.len() as int;
    let prefix = "- **GPU:** "@;
    if 0 <= i < lines.len() && begins_with(lines[i], prefix) && (forall|j: int|
        i < j < lines.len() ==> !begins_with(#[trigger] lines[j], prefix)) {
        lemma_gpu_at(lines, n, i);
    }
    if forall|j: int| 0 <= j < lines.len() ==> !begins_with(#[trigger] lines[j], prefix) {
        lemma_no_gpu(lines, n);
    }
}

proof fn lemma_gpu_at(lines: Seq<Seq<char>>, n: int, i: int)
    requires
        0 <= i < n <= lines.len(),
        begins_with(lines[i], "- **GPU:** "@),
        forall|j: int| i < j < n ==> !begins_with(#[trigger] lines[j], "- **GPU:** "@),
    ensures
        gpu_in(lines, n) == trimmed(lines[i].skip("- **GPU:** "@.len() as int)),
    decreases n,
{
    if n - 1 > i {
        assert(!begins_with(lines[n - 1], "- **GPU:** "@));
        lemma_gpu_at(lines, n - 1, i);
    }
}

proof fn lemma_no_gpu(lines: Seq<Seq<char>>, n: int)
    requires
        0 <= n <= lines.len(),
        forall|j: int| 0 <= j < n ==> !begins_with(#[trigger] lines[j], "- **GPU:** "@),
    ensures
        gpu_in(lines, n).len() == 0,
    decreases n,
{
    if n > 0 {
        assert(!begins_with(lines[n - 1], "- **GPU:** "@));
        lemma_no_gpu(lines, n - 1);
    }
}

} // verus!
