//! Calls as JSON values, as they are recorded.

use crate::json::{entries, lemma_json_view, trees, Json, JsonNumber, JsonTree};
use crate::perf_db::codec::{entry, full_tensor, get};
use crate::text::same_text;
use crate::torch_call::{
    arg_views, tensor_views, ArgView, CallView, TensorInfo, TensorView, TorchArg, TorchCallInfo,
    TorchOp,
};
use crate::torch_op::{kind_from_name, kind_of, op_from_name, op_of, well_typed, ArgKind};
use vstd::prelude::*;

verus! {

/// A number as a value.
pub open spec fn int_json(n: i64) -> JsonTree {
    if n >= 0 {
        JsonTree::Number(JsonNumber::PosInt(n as u64))
    } else {
        JsonTree::Number(JsonNumber::NegInt(n))
    }
}

/// Some numbers as values.
pub open spec fn ints_json(l: Seq<i64>) -> Seq<JsonTree> {
    l.map_values(|n: i64| int_json(n))
}

/// A tensor as a value.
pub open spec fn tensor_json(t: TensorView) -> JsonTree {
    full_tensor(JsonTree::Array(ints_json(t.shape)), t.dtype.text())
}

/// Some tensors as values.
pub open spec fn tensors_json(l: Seq<TensorView>) -> Seq<JsonTree> {
    l.map_values(|t: TensorView| tensor_json(t))
}

/// An argument as a value.
pub open spec fn arg_json(a: ArgView) -> JsonTree {
    match a {
        ArgView::Tensor(t) => tensor_json(t),
        ArgView::Optional(Some(t)) => tensor_json(t),
        ArgView::Optional(None) => JsonTree::Null,
        ArgView::List(l) => JsonTree::Array(tensors_json(l)),
        ArgView::Int(n) => int_json(n),
        ArgView::Ints(l) => JsonTree::Array(ints_json(l)),
        ArgView::Flag(b) => JsonTree::Bool(b),
        ArgView::Dtype(k) => JsonTree::Text(k.text()),
    }
}

/// Some arguments as values.
pub open spec fn args_json(args: Seq<ArgView>) -> Seq<JsonTree> {
    args.map_values(|a: ArgView| arg_json(a))
}

/// Whether an argument with a name is left out of an object: a mask that is not
/// given is.
pub open spec fn left_out(name: Seq<char>, a: ArgView) -> bool {
    name == "mask"@ && a == ArgView::Optional(None)
}

/// The first `n` arguments with their names as entries.
pub open spec fn fields_json(
    names: Seq<Seq<char>>,
    args: Seq<ArgView>,
    n: int,
) -> Seq<(Seq<char>, JsonTree)>
    decreases n,
{
    if n <= 0 {
        seq![]
    } else if left_out(names[n - 1], args[n - 1]) {
        fields_json(names, args, n - 1)
    } else {
        fields_json(names, args, n - 1).push((names[n - 1], arg_json(args[n - 1])))
    }
}

/// The arguments of a call as a value.
pub open spec fn body_json(c: CallView) -> JsonTree {
    match c.op.fields() {
        Some(names) => JsonTree::Object(fields_json(names, c.args, c.args.len() as int)),
        None => if c.args.len() == 1 {
            arg_json(c.args[0])
        } else {
            JsonTree::Array(args_json(c.args))
        },
    }
}

/// A call as a value.
pub open spec fn call_json(c: CallView) -> JsonTree {
    JsonTree::Object(seq![(c.op.text(), body_json(c))])
}

fn int_value(n: i64) -> (j: Json)
    ensures
        j@ == int_json(n),
{
    if n >= 0 {
        Json::Number(JsonNumber::PosInt(n as u64))
    } else {
        Json::Number(JsonNumber::NegInt(n))
    }
}

fn ints_value(l: &Vec<i64>) -> (j: Json)
    ensures
        j@ == JsonTree::Array(ints_json(l@)),
{
    broadcast use lemma_json_view;

    let mut out: Vec<Json> = Vec::new();
    let mut i: usize = 0;
    while i < l.len()
        invariant
            i <= l@.len(),
            trees(out@) == ints_json(l@).take(i as int),
        decreases l@.len() - i,
    {
        let ghost prev = out@;
        out.push(int_value(l[i]));
        assert(trees(out@) =~= trees(prev).push(int_json(l@[i as int])));
        assert(trees(out@) =~= ints_json(l@).take(i + 1));
        i += 1;
    }
    assert(trees(out@) =~= ints_json(l@));
    Json::Array(out)
}

fn tensor_value(t: &TensorInfo) -> (j: Json)
    ensures
        j@ == tensor_json(t@),
{
    broadcast use lemma_json_view;

    let mut m: Vec<(String, Json)> = Vec::new();
    m.push(("shape".to_owned(), ints_value(&t.shape)));
    m.push(("dtype".to_owned(), Json::Text(t.dtype.name().to_owned())));
    let j = Json::Object(m);
    assert(j@->Object_0 =~= tensor_json(t@)->Object_0);
    j
}

fn tensors_value(l: &Vec<TensorInfo>) -> (j: Json)
    ensures
        j@ == JsonTree::Array(tensors_json(tensor_views(l@))),
{
    broadcast use lemma_json_view;

    let ghost goal = tensors_json(tensor_views(l@));
    let mut out: Vec<Json> = Vec::new();
    let mut i: usize = 0;
    while i < l.len()
        invariant
            i <= l@.len(),
            goal == tensors_json(tensor_views(l@)),
            trees(out@) == goal.take(i as int),
        decreases l@.len() - i,
    {
        let ghost prev = out@;
        out.push(tensor_value(&l[i]));
        assert(trees(out@) =~= trees(prev).push(goal[i as int]));
        assert(trees(out@) =~= goal.take(i + 1));
        i += 1;
    }
    assert(trees(out@) =~= goal);
    Json::Array(out)
}

fn arg_value(a: &TorchArg) -> (j: Json)
    ensures
        j@ == arg_json(a@),
{
    match a {
        TorchArg::Tensor(t) => tensor_value(t),
        TorchArg::Optional(Some(t)) => tensor_value(t),
        TorchArg::Optional(None) => Json::Null,
        TorchArg::List(l) => tensors_value(l),
        TorchArg::Int(n) => int_value(*n),
        TorchArg::Ints(l) => ints_value(l),
        TorchArg::Flag(b) => Json::Bool(*b),
        TorchArg::Dtype(k) => Json::Text(k.name().to_owned()),
    }
}

/// A call as a value.
pub fn call_value(c: &TorchCallInfo) -> (j: Json)
    requires
        well_typed(c@),
    ensures
        j@ == call_json(c@),
{
    broadcast use lemma_json_view;

    let ghost args = c@.args;
    let body = match c.op.field_names() {
        Some(names) => {
            let ghost texts = c.op.fields()->0;
            proof {
                lemma_field_count(c.op);
            }
            let mut m: Vec<(String, Json)> = Vec::new();
            let mut i: usize = 0;
            assert(entries(m@) =~= fields_json(texts, args, 0));
            while i < c.args.len()
                invariant
                    i <= c.args@.len() == texts.len(),
                    args == arg_views(c.args@),
                    texts == names@.map_values(|s: &'static str| s@),
                    entries(m@) == fields_json(texts, args, i as int),
                decreases c.args@.len() - i,
            {
                assert(texts[i as int] == names@[i as int]@);
                assert(args[i as int] == c.args@[i as int]@);
                let skipped = match c.args[i] {
                    TorchArg::Optional(None) => same_text(names[i], "mask"),
                    _ => false,
                };
                if !skipped {
                    let ghost prev = m@;
                    m.push((names[i].to_owned(), arg_value(&c.args[i])));
                    assert(entries(m@) =~= entries(prev).push(
                        (texts[i as int], arg_json(args[i as int])),
                    ));
                }
                i += 1;
            }
            Json::Object(m)
        },
        None => {
            if c.args.len() == 1 {
                assert(args[0] == c.args@[0]@);
                arg_value(&c.args[0])
            } else {
                let mut out: Vec<Json> = Vec::new();
                let mut i: usize = 0;
                while i < c.args.len()
                    invariant
                        i <= c.args@.len(),
                        args == arg_views(c.args@),
                        trees(out@) == args_json(args).take(i as int),
                    decreases c.args@.len() - i,
                {
                    let ghost prev = out@;
                    out.push(arg_value(&c.args[i]));
                    assert(args[i as int] == c.args@[i as int]@);
                    assert(trees(out@) =~= trees(prev).push(arg_json(args[i as int])));
                    assert(trees(out@) =~= args_json(args).take(i + 1));
                    i += 1;
                }
                assert(trees(out@) =~= args_json(args));
                Json::Array(out)
            }
        },
    };
    let ghost inner = body@;
    let mut m: Vec<(String, Json)> = Vec::new();
    m.push((c.op.name().to_owned(), body));
    let j = Json::Object(m);
    assert(j@->Object_0 =~= seq![(c.op.text(), inner)]);
    j
}

/// Operators whose arguments have names have a name for each.
pub proof fn lemma_field_count(op: TorchOp)
    ensures
        op.fields() matches Some(names) ==> names.len() == op.takes().len(),
{
}

/// The number that a value is.
pub open spec fn json_int(t: JsonTree) -> Option<i64> {
    match t {
        JsonTree::Number(JsonNumber::PosInt(n)) => if n <= i64::MAX {
            Some(n as i64)
        } else {
            None
        },
        JsonTree::Number(JsonNumber::NegInt(n)) => Some(n),
        _ => None,
    }
}

/// The numbers that some values are.
pub open spec fn json_ints(a: Seq<JsonTree>) -> Option<Seq<i64>>
    decreases a.len(),
{
    if a.len() == 0 {
        Some(seq![])
    } else {
        match (json_ints(a.drop_last()), json_int(a.last())) {
            (Some(l), Some(n)) => Some(l.push(n)),
            _ => None,
        }
    }
}

/// The tensor that a value is.
pub open spec fn json_tensor(t: JsonTree) -> Option<TensorView> {
    match t {
        JsonTree::Object(m) => match (entry(m, "shape"@, 0), entry(m, "dtype"@, 0)) {
            (Some(JsonTree::Array(a)), Some(JsonTree::Text(name))) => {
                match (json_ints(a), kind_of(name)) {
                    (Some(shape), Some(dtype)) => Some(TensorView { shape, dtype }),
                    _ => None,
                }
            },
            _ => None,
        },
        _ => None,
    }
}

/// The tensors that some values are.
pub open spec fn json_tensors(a: Seq<JsonTree>) -> Option<Seq<TensorView>>
    decreases a.len(),
{
    if a.len() == 0 {
        Some(seq![])
    } else {
        match (json_tensors(a.drop_last()), json_tensor(a.last())) {
            (Some(l), Some(t)) => Some(l.push(t)),
            _ => None,
        }
    }
}

/// The argument of a kind that a value is.
pub open spec fn json_arg(t: JsonTree, kind: ArgKind) -> Option<ArgView> {
    match kind {
        ArgKind::Tensor => match json_tensor(t) {
            Some(x) => Some(ArgView::Tensor(x)),
            None => None,
        },
        ArgKind::Optional => match t {
            JsonTree::Null => Some(ArgView::Optional(None)),
            _ => match json_tensor(t) {
                Some(x) => Some(ArgView::Optional(Some(x))),
                None => None,
            },
        },
        ArgKind::List => match t {
            JsonTree::Array(a) => match json_tensors(a) {
                Some(l) => Some(ArgView::List(l)),
                None => None,
            },
            _ => None,
        },
        ArgKind::Int => match json_int(t) {
            Some(n) => Some(ArgView::Int(n)),
            None => None,
        },
        ArgKind::Ints => match t {
            JsonTree::Array(a) => match json_ints(a) {
                Some(l) => Some(ArgView::Ints(l)),
                None => None,
            },
            _ => None,
        },
        ArgKind::Flag => match t {
            JsonTree::Bool(b) => Some(ArgView::Flag(b)),
            _ => None,
        },
        ArgKind::Dtype => match t {
            JsonTree::Text(name) => match kind_of(name) {
                Some(k) => Some(ArgView::Dtype(k)),
                None => None,
            },
            _ => None,
        },
    }
}

/// The argument of a kind that the entry with a name is. A tensor that may be left
/// out need not have an entry.
pub open spec fn json_field(
    m: Seq<(Seq<char>, JsonTree)>,
    name: Seq<char>,
    kind: ArgKind,
) -> Option<ArgView> {
    match entry(m, name, 0) {
        Some(t) => json_arg(t, kind),
        None => if kind == ArgKind::Optional {
            Some(ArgView::Optional(None))
        } else {
            None
        },
    }
}

/// The first `n` arguments that the entries with some names are.
pub open spec fn json_fields(
    m: Seq<(Seq<char>, JsonTree)>,
    names: Seq<Seq<char>>,
    kinds: Seq<ArgKind>,
    n: int,
) -> Option<Seq<ArgView>>
    decreases n,
{
    if n <= 0 {
        Some(seq![])
    } else {
        match (json_fields(m, names, kinds, n - 1), json_field(m, names[n - 1], kinds[n - 1])) {
            (Some(l), Some(a)) => Some(l.push(a)),
            _ => None,
        }
    }
}

/// The first `n` arguments that some values are.
pub open spec fn json_args(a: Seq<JsonTree>, kinds: Seq<ArgKind>, n: int) -> Option<Seq<ArgView>>
    decreases n,
{
    if n <= 0 {
        Some(seq![])
    } else {
        match (json_args(a, kinds, n - 1), json_arg(a[n - 1], kinds[n - 1])) {
            (Some(l), Some(x)) => Some(l.push(x)),
            _ => None,
        }
    }
}

/// The arguments of an operator that a value is.
pub open spec fn json_body(t: JsonTree, op: TorchOp) -> Option<Seq<ArgView>> {
    let kinds = op.takes();
    let n = kinds.len() as int;
    match op.fields() {
        Some(names) => match t {
            JsonTree::Object(m) => json_fields(m, names, kinds, n),
            _ => None,
        },
        None => if n == 1 {
            match json_arg(t, kinds[0]) {
                Some(a) => Some(seq![a]),
                None => None,
            }
        } else {
            match t {
                JsonTree::Array(a) => if a.len() == n {
                    json_args(a, kinds, n)
                } else {
                    None
                },
                _ => None,
            }
        },
    }
}

/// The call that a value is.
pub open spec fn json_call(t: JsonTree) -> Option<CallView> {
    match t {
        JsonTree::Object(m) => if m.len() == 1 {
            match op_of(m[0].0) {
                Some(op) => match json_body(m[0].1, op) {
                    Some(args) => Some(CallView { op, args }),
                    None => None,
                },
                None => None,
            }
        } else {
            None
        },
        _ => None,
    }
}

fn read_int(j: &Json) -> (r: Option<i64>)
    ensures
        r == json_int(j@),
{
    match j {
        Json::Number(JsonNumber::PosInt(n)) => {
            if *n <= 9223372036854775807u64 {
                Some(*n as i64)
            } else {
                None
            }
        },
        Json::Number(JsonNumber::NegInt(n)) => Some(*n),
        _ => None,
    }
}

fn read_ints(a: &Vec<Json>) -> (r: Option<Vec<i64>>)
    ensures
        match r {
            Some(l) => json_ints(trees(a@)) == Some(l@),
            None => json_ints(trees(a@)) is None,
        },
{
    let ghost all = trees(a@);
    let mut out: Vec<i64> = Vec::new();
    let mut i: usize = 0;
    assert(all.take(0) =~= seq![]);
    while i < a.len()
        invariant
            i <= a@.len(),
            all == trees(a@),
            json_ints(all.take(i as int)) == Some(out@),
        decreases a@.len() - i,
    {
        assert(all.take(i + 1).drop_last() =~= all.take(i as int));
        match read_int(&a[i]) {
            Some(n) => out.push(n),
            None => {
                proof {
                    lemma_ints_stuck(all, i + 1);
                }
                return None;
            },
        }
        i += 1;
    }
    assert(all.take(all.len() as int) =~= all);
    Some(out)
}

proof fn lemma_ints_stuck(a: Seq<JsonTree>, n: int)
    requires
        0 <= n <= a.len(),
        json_ints(a.take(n)) is None,
    ensures
        json_ints(a) is None,
    decreases a.len() - n,
{
    if n < a.len() {
        assert(a.take(n + 1).drop_last() =~= a.take(n));
        lemma_ints_stuck(a, n + 1);
    } else {
        assert(a.take(n) =~= a);
    }
}

fn read_tensor(j: &Json) -> (r: Option<TensorInfo>)
    ensures
        match r {
            Some(t) => json_tensor(j@) == Some(t@),
            None => json_tensor(j@) is None,
        },
{
    broadcast use lemma_json_view;

    match j {
        Json::Object(m) => match (get(m, "shape"), get(m, "dtype")) {
            (Some(Json::Array(a)), Some(Json::Text(name))) => {
                match (read_ints(a), kind_from_name(name.as_str())) {
                    (Some(shape), Some(dtype)) => Some(TensorInfo { shape, dtype }),
                    _ => None,
                }
            },
            _ => None,
        },
        _ => None,
    }
}

fn read_tensors(a: &Vec<Json>) -> (r: Option<Vec<TensorInfo>>)
    ensures
        match r {
            Some(l) => json_tensors(trees(a@)) == Some(tensor_views(l@)),
            None => json_tensors(trees(a@)) is None,
        },
{
    let ghost all = trees(a@);
    let mut out: Vec<TensorInfo> = Vec::new();
    let mut i: usize = 0;
    assert(all.take(0) =~= seq![]);
    assert(tensor_views(out@) =~= seq![]);
    while i < a.len()
        invariant
            i <= a@.len(),
            all == trees(a@),
            json_tensors(all.take(i as int)) == Some(tensor_views(out@)),
        decreases a@.len() - i,
    {
        assert(all.take(i + 1).drop_last() =~= all.take(i as int));
        match read_tensor(&a[i]) {
            Some(t) => {
                let ghost prev = out@;
                out.push(t);
                assert(tensor_views(out@) =~= tensor_views(prev).push(t@));
            },
            None => {
                proof {
                    lemma_tensors_stuck(all, i + 1);
                }
                return None;
            },
        }
        i += 1;
    }
    assert(all.take(all.len() as int) =~= all);
    Some(out)
}

proof fn lemma_tensors_stuck(a: Seq<JsonTree>, n: int)
    requires
        0 <= n <= a.len(),
        json_tensors(a.take(n)) is None,
    ensures
        json_tensors(a) is None,
    decreases a.len() - n,
{
    if n < a.len() {
        assert(a.take(n + 1).drop_last() =~= a.take(n));
        lemma_tensors_stuck(a, n + 1);
    } else {
        assert(a.take(n) =~= a);
    }
}

fn read_arg(j: &Json, kind: ArgKind) -> (r: Option<TorchArg>)
    ensures
        match r {
            Some(a) => json_arg(j@, kind) == Some(a@),
            None => json_arg(j@, kind) is None,
        },
{
    broadcast use lemma_json_view;

    match kind {
        ArgKind::Tensor => match read_tensor(j) {
            Some(t) => Some(TorchArg::Tensor(t)),
            None => None,
        },
        ArgKind::Optional => match j {
            Json::Null => Some(TorchArg::Optional(None)),
            _ => match read_tensor(j) {
                Some(t) => Some(TorchArg::Optional(Some(t))),
                None => None,
            },
        },
        ArgKind::List => match j {
            Json::Array(a) => match read_tensors(a) {
                Some(l) => Some(TorchArg::List(l)),
                None => None,
            },
            _ => None,
        },
        ArgKind::Int => match read_int(j) {
            Some(n) => Some(TorchArg::Int(n)),
            None => None,
        },
        ArgKind::Ints => match j {
            Json::Array(a) => match read_ints(a) {
                Some(l) => Some(TorchArg::Ints(l)),
                None => None,
            },
            _ => None,
        },
        ArgKind::Flag => match j {
            Json::Bool(b) => Some(TorchArg::Flag(*b)),
            _ => None,
        },
        ArgKind::Dtype => match j {
            Json::Text(name) => match kind_from_name(name.as_str()) {
                Some(k) => Some(TorchArg::Dtype(k)),
                None => None,
            },
            _ => None,
        },
    }
}

fn read_field(m: &Vec<(String, Json)>, name: &str, kind: ArgKind) -> (r: Option<TorchArg>)
    ensures
        match r {
            Some(a) => json_field(entries(m@), name@, kind) == Some(a@),
            None => json_field(entries(m@), name@, kind) is None,
        },
{
    match get(m, name) {
        Some(j) => read_arg(j, kind),
        None => {
            if kind == ArgKind::Optional {
                Some(TorchArg::Optional(None))
            } else {
                None
            }
        },
    }
}

proof fn lemma_fields_stuck(
    m: Seq<(Seq<char>, JsonTree)>,
    names: Seq<Seq<char>>,
    kinds: Seq<ArgKind>,
    n: int,
    end: int,
)
    requires
        n <= end,
        json_fields(m, names, kinds, n) is None,
    ensures
        json_fields(m, names, kinds, end) is None,
    decreases end - n,
{
    if n < end {
        if n >= 0 {
            assert(json_fields(m, names, kinds, n + 1) is None);
        }
        lemma_fields_stuck(m, names, kinds, n + 1, end);
    }
}

proof fn lemma_args_stuck(a: Seq<JsonTree>, kinds: Seq<ArgKind>, n: int, end: int)
    requires
        n <= end,
        json_args(a, kinds, n) is None,
    ensures
        json_args(a, kinds, end) is None,
    decreases end - n,
{
    if n < end {
        if n >= 0 {
            assert(json_args(a, kinds, n + 1) is None);
        }
        lemma_args_stuck(a, kinds, n + 1, end);
    }
}

fn read_body(j: &Json, op: TorchOp) -> (r: Option<Vec<TorchArg>>)
    ensures
        match r {
            Some(l) => json_body(j@, op) == Some(arg_views(l@)),
            None => json_body(j@, op) is None,
        },
{
    broadcast use lemma_json_view;

    let kinds = op.arg_kinds();
    let n = kinds.len();
    let mut out: Vec<TorchArg> = Vec::new();
    assert(arg_views(out@) =~= seq![]);
    match op.field_names() {
        Some(names) => {
            let ghost texts = op.fields()->0;
            proof {
                lemma_field_count(op);
            }
            match j {
                Json::Object(m) => {
                    let mut i: usize = 0;
                    while i < n
                        invariant
                            i <= n == kinds@.len() == texts.len(),
                            j@ == JsonTree::Object(entries(m@)),
                            op.fields() == Some(texts),
                            kinds@ == op.takes(),
                            texts == names@.map_values(|s: &'static str| s@),
                            json_fields(entries(m@), texts, kinds@, i as int) == Some(
                                arg_views(out@),
                            ),
                        decreases n - i,
                    {
                        assert(texts[i as int] == names@[i as int]@);
                        match read_field(m, names[i], kinds[i]) {
                            Some(a) => {
                                let ghost prev = out@;
                                out.push(a);
                                assert(arg_views(out@) =~= arg_views(prev).push(a@));
                            },
                            None => {
                                proof {
                                    lemma_fields_stuck(
                                        entries(m@),
                                        texts,
                                        kinds@,
                                        i + 1,
                                        n as int,
                                    );
                                }
                                return None;
                            },
                        }
                        i += 1;
                    }
                    Some(out)
                },
                _ => None,
            }
        },
        None => {
            if n == 1 {
                return match read_arg(j, kinds[0]) {
                    Some(a) => {
                        out.push(a);
                        assert(arg_views(out@) =~= seq![a@]);
                        Some(out)
                    },
                    None => None,
                };
            }
            match j {
                Json::Array(a) => {
                    if a.len() != n {
                        return None;
                    }
                    let mut i: usize = 0;
                    while i < n
                        invariant
                            i <= n == kinds@.len() == a@.len(),
                            n != 1,
                            j@ == JsonTree::Array(trees(a@)),
                            op.fields() is None,
                            kinds@ == op.takes(),
                            json_args(trees(a@), kinds@, i as int) == Some(arg_views(out@)),
                        decreases n - i,
                    {
                        assert(trees(a@)[i as int] == a@[i as int]@);
                        match read_arg(&a[i], kinds[i]) {
                            Some(x) => {
                                let ghost prev = out@;
                                out.push(x);
                                assert(arg_views(out@) =~= arg_views(prev).push(x@));
                            },
                            None => {
                                proof {
                                    lemma_args_stuck(trees(a@), kinds@, i + 1, n as int);
                                }
                                return None;
                            },
                        }
                        i += 1;
                    }
                    Some(out)
                },
                _ => None,
            }
        },
    }
}

/// The call that a value is.
pub fn read_call(j: &Json) -> (r: Option<TorchCallInfo>)
    ensures
        match r {
            Some(c) => json_call(j@) == Some(c@),
            None => json_call(j@) is None,
        },
{
    broadcast use lemma_json_view;

    match j {
        Json::Object(m) => {
            if m.len() != 1 {
                return None;
            }
            assert(entries(m@)[0] == (m@[0].0@, m@[0].1@));
            match op_from_name(m[0].0.as_str()) {
                Some(op) => match read_body(&m[0].1, op) {
                    Some(args) => Some(TorchCallInfo { op, args }),
                    None => None,
                },
                None => None,
            }
        },
        _ => None,
    }
}

} // verus!
