//! The short form in which the JSON of a call is kept as a key.
//!
//! A tensor `{"shape":S,"dtype":"Float"}` becomes `["f32",S]`, and a list of tensors
//! that repeats itself becomes `{"R":[k,[period]]}`.

use crate::json::{
    entries, lemma_entry_smaller, lemma_item_smaller, lemma_json_view, proper, trees, Json,
    JsonNumber, JsonTree,
};
use crate::sort::{in_order, sort_rows, views, Ranked};
use crate::text::{same_text, text_le, text_not_after};
use vstd::prelude::*;

verus! {

/// The short code of an element type, if it has one.
pub open spec fn code_of(name: Seq<char>) -> Option<Seq<char>> {
    if name == "Float"@ {
        Some("f32"@)
    } else if name == "Double"@ {
        Some("f64"@)
    } else if name == "Half"@ {
        Some("f16"@)
    } else if name == "BFloat16"@ {
        Some("bf16"@)
    } else if name == "Bool"@ {
        Some("b8"@)
    } else if name == "Int"@ {
        Some("i32"@)
    } else if name == "Int64"@ {
        Some("i64"@)
    } else if name == "Int16"@ {
        Some("i16"@)
    } else if name == "Int8"@ {
        Some("i8"@)
    } else if name == "Uint8"@ {
        Some("u8"@)
    } else {
        None
    }
}

/// The element type that a short code stands for, if it stands for one.
pub open spec fn name_of(code: Seq<char>) -> Option<Seq<char>> {
    if code == "f32"@ {
        Some("Float"@)
    } else if code == "f64"@ {
        Some("Double"@)
    } else if code == "f16"@ {
        Some("Half"@)
    } else if code == "bf16"@ {
        Some("BFloat16"@)
    } else if code == "b8"@ {
        Some("Bool"@)
    } else if code == "i32"@ {
        Some("Int"@)
    } else if code == "i64"@ {
        Some("Int64"@)
    } else if code == "i16"@ {
        Some("Int16"@)
    } else if code == "i8"@ {
        Some("Int8"@)
    } else if code == "u8"@ {
        Some("Uint8"@)
    } else {
        None
    }
}

/// The short code of an element type, if it has one.
pub fn dtype_to_code(name: &str) -> (r: Option<&'static str>)
    ensures
        match r {
            Some(c) => code_of(name@) == Some(c@),
            None => code_of(name@) is None,
        },
{
    if same_text(name, "Float") {
        Some("f32")
    } else if same_text(name, "Double") {
        Some("f64")
    } else if same_text(name, "Half") {
        Some("f16")
    } else if same_text(name, "BFloat16") {
        Some("bf16")
    } else if same_text(name, "Bool") {
        Some("b8")
    } else if same_text(name, "Int") {
        Some("i32")
    } else if same_text(name, "Int64") {
        Some("i64")
    } else if same_text(name, "Int16") {
        Some("i16")
    } else if same_text(name, "Int8") {
        Some("i8")
    } else if same_text(name, "Uint8") {
        Some("u8")
    } else {
        None
    }
}

/// The element type that a short code stands for, if it stands for one.
pub fn dtype_from_code(code: &str) -> (r: Option<&'static str>)
    ensures
        match r {
            Some(n) => name_of(code@) == Some(n@),
            None => name_of(code@) is None,
        },
{
    if same_text(code, "f32") {
        Some("Float")
    } else if same_text(code, "f64") {
        Some("Double")
    } else if same_text(code, "f16") {
        Some("Half")
    } else if same_text(code, "bf16") {
        Some("BFloat16")
    } else if same_text(code, "b8") {
        Some("Bool")
    } else if same_text(code, "i32") {
        Some("Int")
    } else if same_text(code, "i64") {
        Some("Int64")
    } else if same_text(code, "i16") {
        Some("Int16")
    } else if same_text(code, "i8") {
        Some("Int8")
    } else if same_text(code, "u8") {
        Some("Uint8")
    } else {
        None
    }
}

proof fn lemma_code_literals()
    ensures
        "f32"@ == seq!['f', '3', '2'],
        "f64"@ == seq!['f', '6', '4'],
        "f16"@ == seq!['f', '1', '6'],
        "bf16"@ == seq!['b', 'f', '1', '6'],
        "b8"@ == seq!['b', '8'],
        "i32"@ == seq!['i', '3', '2'],
        "i64"@ == seq!['i', '6', '4'],
        "i16"@ == seq!['i', '1', '6'],
        "i8"@ == seq!['i', '8'],
        "u8"@ == seq!['u', '8'],
{
    reveal_strlit("f32");
    reveal_strlit("f64");
    reveal_strlit("f16");
    reveal_strlit("bf16");
    reveal_strlit("b8");
    reveal_strlit("i32");
    reveal_strlit("i64");
    reveal_strlit("i16");
    reveal_strlit("i8");
    reveal_strlit("u8");
    assert("f32"@ =~= seq!['f', '3', '2']);
    assert("f64"@ =~= seq!['f', '6', '4']);
    assert("f16"@ =~= seq!['f', '1', '6']);
    assert("bf16"@ =~= seq!['b', 'f', '1', '6']);
    assert("b8"@ =~= seq!['b', '8']);
    assert("i32"@ =~= seq!['i', '3', '2']);
    assert("i64"@ =~= seq!['i', '6', '4']);
    assert("i16"@ =~= seq!['i', '1', '6']);
    assert("i8"@ =~= seq!['i', '8']);
    assert("u8"@ =~= seq!['u', '8']);
}

/// A short code stands for the element type it was given for.
pub proof fn law_codes_round_trip(name: Seq<char>)
    ensures
        code_of(name) matches Some(code) ==> name_of(code) == Some(name),
{
    lemma_code_literals();
    if let Some(code) = code_of(name) {
        if code.len() == 2 {
            assert(code[0] == 'b' || code[0] == 'i' || code[0] == 'u');
        } else if code.len() == 3 {
            assert(code[1] == '3' || code[1] == '6' || code[1] == '1');
        }
    }
}

/// The element type that a short code stands for has that code.
pub proof fn law_codes_have_names(code: Seq<char>)
    ensures
        name_of(code) matches Some(name) ==> code_of(name) == Some(code),
{
    lemma_code_literals();
    reveal_strlit("Float");
    reveal_strlit("Double");
    reveal_strlit("Half");
    reveal_strlit("BFloat16");
    reveal_strlit("Bool");
    reveal_strlit("Int");
    reveal_strlit("Int64");
    reveal_strlit("Int16");
    reveal_strlit("Int8");
    reveal_strlit("Uint8");
    assert("Float"@.len() == 5 && "Float"@[0] == 'F');
    assert("Double"@.len() == 6 && "Half"@.len() == 4 && "BFloat16"@.len() == 8);
    assert("Half"@[0] == 'H' && "Bool"@.len() == 4 && "Bool"@[0] == 'B');
    assert("Int"@.len() == 3 && "Int8"@.len() == 4 && "Int8"@[0] == 'I');
    assert("Int64"@.len() == 5 && "Int64"@[0] == 'I' && "Int64"@[3] == '6');
    assert("Int16"@.len() == 5 && "Int16"@[0] == 'I' && "Int16"@[3] == '1');
    assert("Uint8"@.len() == 5 && "Uint8"@[0] == 'U');
}

/// The value of the first entry from `i` on that has a key.
pub open spec fn entry(m: Seq<(Seq<char>, JsonTree)>, key: Seq<char>, i: int) -> Option<JsonTree>
    decreases m.len() - i,
{
    if i < 0 || i >= m.len() {
        None
    } else if m[i].0 == key {
        Some(m[i].1)
    } else {
        entry(m, key, i + 1)
    }
}

/// The value of the entry that has a key.
pub fn get<'a>(m: &'a Vec<(String, Json)>, key: &str) -> (r: Option<&'a Json>)
    ensures
        match r {
            Some(j) => entry(entries(m@), key@, 0) == Some(j@),
            None => entry(entries(m@), key@, 0) is None,
        },
{
    let mut i: usize = 0;
    while i < m.len()
        invariant
            i <= m@.len(),
            entry(entries(m@), key@, 0) == entry(entries(m@), key@, i as int),
        decreases m@.len() - i,
    {
        if same_text(m[i].0.as_str(), key) {
            return Some(&m[i].1);
        }
        i += 1;
    }
    None
}

/// Whether two numbers are taken for the same.
pub open spec fn same_number(a: JsonNumber, b: JsonNumber) -> bool {
    match (a, b) {
        (JsonNumber::PosInt(x), JsonNumber::PosInt(y)) => x == y,
        (JsonNumber::NegInt(x), JsonNumber::NegInt(y)) => x == y,
        (JsonNumber::Float(x), JsonNumber::Float(y)) => crate::json::floats_equal(x, y),
        _ => false,
    }
}

/// Whether two values are the same. The order of entries does not matter.
pub open spec fn same_tree(a: JsonTree, b: JsonTree) -> bool
    decreases a,
{
    match (a, b) {
        (JsonTree::Null, JsonTree::Null) => true,
        (JsonTree::Bool(x), JsonTree::Bool(y)) => x == y,
        (JsonTree::Number(x), JsonTree::Number(y)) => same_number(x, y),
        (JsonTree::Text(x), JsonTree::Text(y)) => x == y,
        (JsonTree::Array(x), JsonTree::Array(y)) => x.len() == y.len() && forall|i: int|
            0 <= i < x.len() ==> same_tree(#[trigger] x[i], y[i]),
        (JsonTree::Object(x), JsonTree::Object(y)) => x.len() == y.len() && forall|i: int|
            0 <= i < x.len() ==> match entry(y, (#[trigger] x[i]).0, 0) {
                Some(v) => same_tree(x[i].1, v),
                None => false,
            },
        _ => false,
    }
}

impl Json {
    /// Whether two values are the same.
    pub fn same(&self, other: &Json) -> (r: bool)
        ensures
            r == same_tree(self@, other@),
        decreases self@,
    {
        broadcast use lemma_json_view;

        match (self, other) {
            (Json::Null, Json::Null) => true,
            (Json::Bool(x), Json::Bool(y)) => *x == *y,
            (Json::Number(x), Json::Number(y)) => match (x, y) {
                (JsonNumber::PosInt(x), JsonNumber::PosInt(y)) => *x == *y,
                (JsonNumber::NegInt(x), JsonNumber::NegInt(y)) => *x == *y,
                (JsonNumber::Float(x), JsonNumber::Float(y)) => crate::json::same_float(x, y),
                _ => false,
            },
            (Json::Text(x), Json::Text(y)) => same_text(x.as_str(), y.as_str()),
            (Json::Array(x), Json::Array(y)) => {
                if x.len() != y.len() {
                    return false;
                }
                let mut i: usize = 0;
                while i < x.len()
                    invariant
                        i <= x@.len() == y@.len(),
                        self@ == JsonTree::Array(trees(x@)),
                        other@ == JsonTree::Array(trees(y@)),
                        forall|j: int|
                            0 <= j < i ==> same_tree(#[trigger] trees(x@)[j], trees(y@)[j]),
                    decreases x@.len() - i,
                {
                    proof {
                        lemma_item_smaller(self@, i as int);
                    }
                    if !x[i].same(&y[i]) {
                        assert(!same_tree(trees(x@)[i as int], trees(y@)[i as int]));
                        return false;
                    }
                    i += 1;
                }
                true
            },
            (Json::Object(x), Json::Object(y)) => {
                if x.len() != y.len() {
                    return false;
                }
                let mut i: usize = 0;
                while i < x.len()
                    invariant
                        i <= x@.len() == y@.len(),
                        self@ == JsonTree::Object(entries(x@)),
                        other@ == JsonTree::Object(entries(y@)),
                        forall|j: int|
                            0 <= j < i ==> match entry(
                                entries(y@),
                                (#[trigger] entries(x@)[j]).0,
                                0,
                            ) {
                                Some(v) => same_tree(entries(x@)[j].1, v),
                                None => false,
                            },
                    decreases x@.len() - i,
                {
                    proof {
                        lemma_entry_smaller(self@, i as int);
                    }
                    let found = match get(y, x[i].0.as_str()) {
                        Some(v) => x[i].1.same(v),
                        None => false,
                    };
                    assert(entries(x@)[i as int] == (x@[i as int].0@, x@[i as int].1@));
                    if !found {
                        return false;
                    }
                    i += 1;
                }
                true
            },
            _ => false,
        }
    }
}

impl Clone for Json {
    fn clone(&self) -> (r: Self)
        ensures
            r@ == self@,
        decreases self@,
    {
        broadcast use lemma_json_view;

        match self {
            Json::Null => Json::Null,
            Json::Bool(b) => Json::Bool(*b),
            Json::Number(JsonNumber::PosInt(n)) => Json::Number(JsonNumber::PosInt(*n)),
            Json::Number(JsonNumber::NegInt(n)) => Json::Number(JsonNumber::NegInt(*n)),
            Json::Number(JsonNumber::Float(n)) => Json::Number(
                JsonNumber::Float(crate::json::copy_float(n)),
            ),
            Json::Text(s) => Json::Text(s.clone()),
            Json::Array(a) => {
                let mut out: Vec<Json> = Vec::new();
                let mut i: usize = 0;
                while i < a.len()
                    invariant
                        i <= a@.len(),
                        self@ == JsonTree::Array(trees(a@)),
                        trees(out@) == trees(a@).take(i as int),
                    decreases a@.len() - i,
                {
                    proof {
                        lemma_item_smaller(self@, i as int);
                    }
                    let ghost prev = out@;
                    out.push(a[i].clone());
                    assert(trees(out@) =~= trees(prev).push(a@[i as int]@));
                    assert(trees(out@) =~= trees(a@).take(i + 1));
                    i += 1;
                }
                assert(trees(out@) =~= trees(a@));
                Json::Array(out)
            },
            Json::Object(m) => {
                let mut out: Vec<(String, Json)> = Vec::new();
                let mut i: usize = 0;
                while i < m.len()
                    invariant
                        i <= m@.len(),
                        self@ == JsonTree::Object(entries(m@)),
                        entries(out@) == entries(m@).take(i as int),
                    decreases m@.len() - i,
                {
                    proof {
                        lemma_entry_smaller(self@, i as int);
                    }
                    let ghost prev = out@;
                    out.push((m[i].0.clone(), m[i].1.clone()));
                    assert(entries(out@) =~= entries(prev).push(entries(m@)[i as int]));
                    assert(entries(out@) =~= entries(m@).take(i + 1));
                    i += 1;
                }
                assert(entries(out@) =~= entries(m@));
                Json::Object(out)
            },
        }
    }
}

/// The short code and the shape of a tensor, where an object is one.
pub open spec fn tensor_parts(m: Seq<(Seq<char>, JsonTree)>) -> Option<(Seq<char>, JsonTree)> {
    if m.len() != 2 {
        None
    } else {
        match (entry(m, "shape"@, 0), entry(m, "dtype"@, 0)) {
            (Some(JsonTree::Array(shape)), Some(JsonTree::Text(name))) => match code_of(name) {
                Some(code) => Some((code, JsonTree::Array(shape))),
                None => None,
            },
            _ => None,
        }
    }
}

/// Whether a value has the form of a tensor in short form.
pub open spec fn is_short(t: JsonTree) -> bool {
    t matches JsonTree::Array(a) && a.len() == 2 && a[0] is Text && a[1] is Array
}

/// Whether some values are a list of more than one tensor in short form.
pub open spec fn short_list(items: Seq<JsonTree>) -> bool {
    items.len() > 1 && forall|i: int| 0 <= i < items.len() ==> is_short(#[trigger] items[i])
}

/// Whether some values are their first `p` values over and over.
pub open spec fn repeats(items: Seq<JsonTree>, p: int) -> bool {
    &&& items.len() as int % p == 0
    &&& forall|i: int|
        0 <= i < items.len() ==> same_tree(#[trigger] items[i], items[i % p])
}

/// The first number from `p` on, up to half of the values, of which some values are
/// repetitions.
pub open spec fn period_from(items: Seq<JsonTree>, p: int) -> Option<int>
    decreases items.len() - p,
{
    if p < 1 || p > items.len() / 2 {
        None
    } else if repeats(items, p) {
        Some(p)
    } else {
        period_from(items, p + 1)
    }
}

/// The short form of a repeated list.
pub open spec fn run_of(k: nat, period: Seq<JsonTree>) -> JsonTree {
    JsonTree::Object(
        seq![
            (
                "R"@,
                JsonTree::Array(
                    seq![
                        JsonTree::Number(JsonNumber::PosInt(k as u64)),
                        JsonTree::Array(period),
                    ],
                ),
            ),
        ],
    )
}

/// The short form of a list whose values are in short form.
pub open spec fn short_array(items: Seq<JsonTree>) -> JsonTree {
    if short_list(items) {
        match period_from(items, 1) {
            Some(p) => run_of(items.len() / p as nat, items.take(p)),
            None => JsonTree::Array(items),
        }
    } else {
        JsonTree::Array(items)
    }
}

/// The short form of a value.
pub open spec fn compacted(t: JsonTree) -> JsonTree
    decreases t,
{
    match t {
        JsonTree::Object(m) => match tensor_parts(m) {
            Some((code, shape)) => JsonTree::Array(seq![JsonTree::Text(code), shape]),
            None => JsonTree::Object(compacted_entries(m)),
        },
        JsonTree::Array(a) => short_array(compacted_items(a)),
        other => other,
    }
}

/// The short forms of some values.
pub open spec fn compacted_items(a: Seq<JsonTree>) -> Seq<JsonTree>
    decreases a,
{
    Seq::new(
        a.len(),
        |i: int|
            if 0 <= i < a.len() {
                compacted(a[i])
            } else {
                JsonTree::Null
            },
    )
}

/// Some entries with their values in short form.
pub open spec fn compacted_entries(m: Seq<(Seq<char>, JsonTree)>) -> Seq<(Seq<char>, JsonTree)>
    decreases m,
{
    Seq::new(
        m.len(),
        |i: int|
            if 0 <= i < m.len() {
                (m[i].0, compacted(m[i].1))
            } else {
                (seq![], JsonTree::Null)
            },
    )
}

/// The short forms of some values are those of each of them.
pub proof fn lemma_compacted_items(a: Seq<JsonTree>)
    ensures
        compacted_items(a).len() == a.len(),
        forall|i: int| 0 <= i < a.len() ==> #[trigger] compacted_items(a)[i] == compacted(a[i]),
{
    reveal_with_fuel(compacted, 2);
    reveal_with_fuel(compacted_items, 2);
}

/// The values of some entries in short form are those of each of them.
pub proof fn lemma_compacted_entries(m: Seq<(Seq<char>, JsonTree)>)
    ensures
        compacted_entries(m).len() == m.len(),
        forall|i: int|
            0 <= i < m.len() ==> #[trigger] compacted_entries(m)[i] == (m[i].0, compacted(m[i].1)),
{
    reveal_with_fuel(compacted, 2);
    reveal_with_fuel(compacted_entries, 2);
}

/// If some values are a period over and over, how often, and the period.
pub fn find_period(items: &Vec<Json>) -> (r: Option<(usize, Vec<Json>)>)
    ensures
        match r {
            Some((k, period)) => period_from(trees(items@), 1) matches Some(p) && k
                == items@.len() / p as nat && trees(period@) == trees(items@).take(p),
            None => period_from(trees(items@), 1) is None,
        },
{
    let n = items.len();
    let ghost all = trees(items@);
    let mut p: usize = 1;
    while p <= n / 2
        invariant
            1 <= p <= n / 2 + 1,
            n == items@.len(),
            all == trees(items@),
            period_from(all, 1) == period_from(all, p as int),
        decreases n - p,
    {
        if n % p == 0 {
            let mut all_same = true;
            let mut i: usize = 0;
            while i < n
                invariant
                    0 < p <= n,
                    i <= n == items@.len(),
                    all == trees(items@),
                    all_same == forall|j: int|
                        0 <= j < i ==> same_tree(#[trigger] all[j], all[j % p as int]),
                decreases n - i,
            {
                if !items[i].same(&items[i % p]) {
                    assert(!same_tree(all[i as int], all[i as int % p as int]));
                    all_same = false;
                }
                i += 1;
            }
            if all_same {
                assert(repeats(all, p as int));
                let mut period: Vec<Json> = Vec::new();
                let mut j: usize = 0;
                while j < p
                    invariant
                        j <= p <= n == items@.len(),
                        all == trees(items@),
                        trees(period@) == all.take(j as int),
                    decreases p - j,
                {
                    let ghost prev = period@;
                    period.push(items[j].clone());
                    assert(trees(period@) =~= trees(prev).push(all[j as int]));
                    assert(trees(period@) =~= all.take(j + 1));
                    j += 1;
                }
                return Some((n / p, period));
            }
        }
        assert(!repeats(all, p as int));
        p += 1;
    }
    None
}

fn short_code(m: &Vec<(String, Json)>) -> (r: Option<Json>)
    ensures
        match r {
            Some(j) => tensor_parts(entries(m@)) matches Some((code, shape)) && j@
                == JsonTree::Array(seq![JsonTree::Text(code), shape]),
            None => tensor_parts(entries(m@)) is None,
        },
{
    broadcast use lemma_json_view;

    if m.len() != 2 {
        return None;
    }
    let shape = match get(m, "shape") {
        Some(shape) => shape,
        None => {
            return None;
        },
    };
    let dtype = match get(m, "dtype") {
        Some(dtype) => dtype,
        None => {
            return None;
        },
    };
    match (shape, dtype) {
        (Json::Array(_), Json::Text(name)) => match dtype_to_code(name.as_str()) {
            Some(code) => {
                let mut out: Vec<Json> = Vec::new();
                out.push(Json::Text(code.to_owned()));
                out.push(shape.clone());
                let r = Json::Array(out);
                assert(r@->Array_0 =~= seq![JsonTree::Text(code@), shape@]);
                Some(r)
            },
            None => None,
        },
        _ => None,
    }
}

fn is_short_form(j: &Json) -> (b: bool)
    ensures
        b == is_short(j@),
{
    broadcast use lemma_json_view;

    match j {
        Json::Array(a) => {
            if a.len() != 2 {
                return false;
            }
            let text = match a[0] {
                Json::Text(_) => true,
                _ => false,
            };
            let list = match a[1] {
                Json::Array(_) => true,
                _ => false,
            };
            assert(trees(a@)[0] == a@[0]@);
            assert(trees(a@)[1] == a@[1]@);
            text && list
        },
        _ => false,
    }
}

fn compact_list(items: Vec<Json>) -> (r: Json)
    ensures
        r@ == short_array(trees(items@)),
{
    broadcast use lemma_json_view;

    let ghost all = trees(items@);
    let mut list = items.len() > 1;
    let mut i: usize = 0;
    while i < items.len()
        invariant
            i <= items@.len(),
            all == trees(items@),
            list == (items@.len() > 1 && forall|j: int|
                0 <= j < i ==> is_short(#[trigger] all[j])),
        decreases items@.len() - i,
    {
        if !is_short_form(&items[i]) {
            assert(!is_short(all[i as int]));
            list = false;
        }
        i += 1;
    }
    if list {
        if let Some((k, period)) = find_period(&items) {
            let mut pair: Vec<Json> = Vec::new();
            let ghost times = JsonTree::Number(JsonNumber::PosInt(k as u64));
            let ghost part = trees(period@);
            pair.push(Json::Number(JsonNumber::PosInt(k as u64)));
            pair.push(Json::Array(period));
            let run = Json::Array(pair);
            assert(run@->Array_0 =~= seq![times, JsonTree::Array(part)]);
            let mut m: Vec<(String, Json)> = Vec::new();
            m.push(("R".to_owned(), run));
            let r = Json::Object(m);
            assert(r@->Object_0 =~= seq![("R"@, run@)]);
            return r;
        }
    }
    Json::Array(items)
}

/// Brings a value into its short form.
pub fn compact_value(v: Json) -> (r: Json)
    ensures
        r@ == compacted(v@),
    decreases v@,
{
    broadcast use lemma_json_view;

    match v {
        Json::Object(m) => {
            if let Some(short) = short_code(&m) {
                return short;
            }
            let ghost all = m@;
            let ghost goal = compacted_entries(entries(all));
            proof {
                lemma_compacted_entries(entries(all));
            }
            let mut out: Vec<(String, Json)> = Vec::new();
            for x in it: m
                invariant
                    it.seq() == all,
                    v@ == JsonTree::Object(entries(all)),
                    goal.len() == all.len(),
                    forall|i: int|
                        0 <= i < all.len() ==> #[trigger] goal[i] == (
                            entries(all)[i].0,
                            compacted(entries(all)[i].1),
                        ),
                    entries(out@) == goal.take(it.index()),
            {
                proof {
                    lemma_entry_smaller(v@, it.index());
                }
                assert(entries(all)[it.index()] == (x.0@, x.1@));
                let ghost prev = out@;
                let (k, w) = x;
                out.push((k, compact_value(w)));
                assert(entries(out@) =~= entries(prev).push(goal[it.index()]));
                assert(entries(out@) =~= goal.take(it.index() + 1));
            }
            assert(entries(out@) =~= goal);
            Json::Object(out)
        },
        Json::Array(a) => {
            let ghost all = a@;
            let ghost goal = compacted_items(trees(all));
            proof {
                lemma_compacted_items(trees(all));
            }
            let mut out: Vec<Json> = Vec::new();
            for x in it: a
                invariant
                    it.seq() == all,
                    v@ == JsonTree::Array(trees(all)),
                    goal.len() == all.len(),
                    forall|i: int|
                        0 <= i < all.len() ==> #[trigger] goal[i] == compacted(trees(all)[i]),
                    trees(out@) == goal.take(it.index()),
            {
                proof {
                    lemma_item_smaller(v@, it.index());
                }
                assert(trees(all)[it.index()] == x@);
                let ghost prev = out@;
                out.push(compact_value(x));
                assert(trees(out@) =~= trees(prev).push(goal[it.index()]));
                assert(trees(out@) =~= goal.take(it.index() + 1));
            }
            assert(trees(out@) =~= goal);
            compact_list(out)
        },
        other => other,
    }
}

/// Some values over and over.
pub open spec fn repeated(items: Seq<JsonTree>, k: nat) -> Seq<JsonTree>
    decreases k,
{
    if k == 0 {
        seq![]
    } else {
        repeated(items, (k - 1) as nat) + items
    }
}

/// A tensor in full.
pub open spec fn full_tensor(shape: JsonTree, name: Seq<char>) -> JsonTree {
    JsonTree::Object(seq![("shape"@, shape), ("dtype"@, JsonTree::Text(name))])
}

/// The element type of a tensor in short form, where an array is one.
pub open spec fn short_dtype(a: Seq<JsonTree>) -> Option<Seq<char>> {
    if a.len() == 2 && a[1] is Array {
        match a[0] {
            JsonTree::Text(code) => name_of(code),
            _ => None,
        }
    } else {
        None
    }
}

/// Whether an object is a repeated list in short form.
pub open spec fn is_run(m: Seq<(Seq<char>, JsonTree)>) -> bool {
    m.len() == 1 && m[0].0 == "R"@ && m[0].1 is Array && m[0].1->Array_0.len() >= 2
        && m[0].1->Array_0[0] is Number && m[0].1->Array_0[0]->Number_0 is PosInt
        && m[0].1->Array_0[1] is Array
}

/// A value in full.
pub open spec fn expanded(t: JsonTree) -> JsonTree
    decreases t,
{
    match t {
        JsonTree::Object(m) => if is_run(m) {
            let run = m[0].1->Array_0;
            JsonTree::Array(
                repeated(expanded_items(run[1]->Array_0), run[0]->Number_0->PosInt_0 as nat),
            )
        } else {
            JsonTree::Object(expanded_entries(m))
        },
        JsonTree::Array(a) => match short_dtype(a) {
            Some(name) => full_tensor(a[1], name),
            None => JsonTree::Array(expanded_items(a)),
        },
        other => other,
    }
}

/// Some values in full.
pub open spec fn expanded_items(a: Seq<JsonTree>) -> Seq<JsonTree>
    decreases a,
{
    Seq::new(
        a.len(),
        |i: int|
            if 0 <= i < a.len() {
                expanded(a[i])
            } else {
                JsonTree::Null
            },
    )
}

/// Some entries with their values in full.
pub open spec fn expanded_entries(m: Seq<(Seq<char>, JsonTree)>) -> Seq<(Seq<char>, JsonTree)>
    decreases m,
{
    Seq::new(
        m.len(),
        |i: int|
            if 0 <= i < m.len() {
                (m[i].0, expanded(m[i].1))
            } else {
                (seq![], JsonTree::Null)
            },
    )
}

/// Some values in full are each of them in full.
pub proof fn lemma_expanded_items(a: Seq<JsonTree>)
    ensures
        expanded_items(a).len() == a.len(),
        forall|i: int| 0 <= i < a.len() ==> #[trigger] expanded_items(a)[i] == expanded(a[i]),
{
    reveal_with_fuel(expanded, 2);
    reveal_with_fuel(expanded_items, 2);
}

/// The values of some entries in full are each of them in full.
pub proof fn lemma_expanded_entries(m: Seq<(Seq<char>, JsonTree)>)
    ensures
        expanded_entries(m).len() == m.len(),
        forall|i: int|
            0 <= i < m.len() ==> #[trigger] expanded_entries(m)[i] == (m[i].0, expanded(m[i].1)),
{
    reveal_with_fuel(expanded, 2);
    reveal_with_fuel(expanded_entries, 2);
}

/// The length and the period of a repeated list, where an object is one.
fn run_parts(m: &Vec<(String, Json)>) -> (r: Option<(u64, &Vec<Json>)>)
    ensures
        match r {
            Some((k, period)) => is_run(entries(m@)) && entries(m@)[0].1->Array_0[0]
                == JsonTree::Number(JsonNumber::PosInt(k)) && entries(m@)[0].1->Array_0[1]
                == JsonTree::Array(trees(period@)),
            None => !is_run(entries(m@)),
        },
{
    broadcast use lemma_json_view;

    if m.len() != 1 || !same_text(m[0].0.as_str(), "R") {
        return None;
    }
    assert(entries(m@)[0] == (m@[0].0@, m@[0].1@));
    match &m[0].1 {
        Json::Array(run) => {
            if run.len() < 2 {
                return None;
            }
            assert(trees(run@)[0] == run@[0]@);
            assert(trees(run@)[1] == run@[1]@);
            match (&run[0], &run[1]) {
                (Json::Number(JsonNumber::PosInt(k)), Json::Array(period)) => Some((*k, period)),
                _ => None,
            }
        },
        _ => None,
    }
}

fn full_dtype(a: &Vec<Json>) -> (r: Option<&'static str>)
    ensures
        match r {
            Some(name) => short_dtype(trees(a@)) == Some(name@),
            None => short_dtype(trees(a@)) is None,
        },
{
    broadcast use lemma_json_view;

    if a.len() != 2 {
        return None;
    }
    assert(trees(a@)[0] == a@[0]@);
    assert(trees(a@)[1] == a@[1]@);
    match (&a[0], &a[1]) {
        (Json::Text(code), Json::Array(_)) => dtype_from_code(code.as_str()),
        _ => None,
    }
}

/// Brings a value out of its short form. A value in full stays as it is.
pub fn expand_value(v: Json) -> (r: Json)
    ensures
        r@ == expanded(v@),
    decreases v@,
{
    broadcast use lemma_json_view;

    match v {
        Json::Object(m) => {
            if let Some((k, period)) = run_parts(&m) {
                let ghost part = trees(period@);
                let ghost goal = expanded_items(part);
                proof {
                    lemma_expanded_items(part);
                }
                let mut out: Vec<Json> = Vec::new();
                let mut n: u64 = 0;
                assert(trees(out@) =~= repeated(goal, 0));
                while n < k
                    invariant
                        n <= k,
                        v@ == JsonTree::Object(entries(m@)),
                        is_run(entries(m@)),
                        entries(m@)[0].1->Array_0[1] == JsonTree::Array(part),
                        part == trees(period@),
                        goal.len() == part.len(),
                        forall|i: int| 0 <= i < part.len() ==> #[trigger] goal[i] == expanded(part[i]),
                        trees(out@) == repeated(goal, n as nat),
                    decreases k - n,
                {
                    let ghost before = trees(out@);
                    let mut i: usize = 0;
                    assert(goal.take(0) =~= seq![]);
                    while i < period.len()
                        invariant
                            i <= period@.len(),
                            v@ == JsonTree::Object(entries(m@)),
                            is_run(entries(m@)),
                            entries(m@)[0].1->Array_0[1] == JsonTree::Array(part),
                            part == trees(period@),
                            goal.len() == part.len(),
                            forall|i: int|
                                0 <= i < part.len() ==> #[trigger] goal[i] == expanded(part[i]),
                            trees(out@) == before + goal.take(i as int),
                        decreases period@.len() - i,
                    {
                        let ghost prev = out@;
                        let item = period[i].clone();
                        proof {
                            lemma_entry_smaller(v@, 0);
                            lemma_item_smaller(entries(m@)[0].1, 1);
                            lemma_item_smaller(JsonTree::Array(part), i as int);
                            assert(part[i as int] == item@);
                        }
                        out.push(expand_value(item));
                        assert(trees(out@) =~= trees(prev).push(goal[i as int]));
                        assert(trees(out@) =~= before + goal.take(i + 1));
                        i += 1;
                    }
                    assert(goal.take(goal.len() as int) =~= goal);
                    assert(trees(out@) =~= repeated(goal, (n + 1) as nat));
                    n += 1;
                }
                return Json::Array(out);
            }
            let ghost all = m@;
            let ghost goal = expanded_entries(entries(all));
            proof {
                lemma_expanded_entries(entries(all));
            }
            let mut out: Vec<(String, Json)> = Vec::new();
            for x in it: m
                invariant
                    it.seq() == all,
                    v@ == JsonTree::Object(entries(all)),
                    goal.len() == all.len(),
                    forall|i: int|
                        0 <= i < all.len() ==> #[trigger] goal[i] == (
                            entries(all)[i].0,
                            expanded(entries(all)[i].1),
                        ),
                    entries(out@) == goal.take(it.index()),
            {
                proof {
                    lemma_entry_smaller(v@, it.index());
                }
                assert(entries(all)[it.index()] == (x.0@, x.1@));
                let ghost prev = out@;
                let (k, w) = x;
                out.push((k, expand_value(w)));
                assert(entries(out@) =~= entries(prev).push(goal[it.index()]));
                assert(entries(out@) =~= goal.take(it.index() + 1));
            }
            assert(entries(out@) =~= goal);
            Json::Object(out)
        },
        Json::Array(a) => {
            if let Some(name) = full_dtype(&a) {
                let mut m: Vec<(String, Json)> = Vec::new();
                let shape = a[1].clone();
                m.push(("shape".to_owned(), shape));
                m.push(("dtype".to_owned(), Json::Text(name.to_owned())));
                let r = Json::Object(m);
                assert(r@->Object_0 =~= seq![
                    ("shape"@, trees(a@)[1]),
                    ("dtype"@, JsonTree::Text(name@)),
                ]);
                return r;
            }
            let ghost all = a@;
            let ghost goal = expanded_items(trees(all));
            proof {
                lemma_expanded_items(trees(all));
            }
            let mut out: Vec<Json> = Vec::new();
            for x in it: a
                invariant
                    it.seq() == all,
                    v@ == JsonTree::Array(trees(all)),
                    goal.len() == all.len(),
                    forall|i: int|
                        0 <= i < all.len() ==> #[trigger] goal[i] == expanded(trees(all)[i]),
                    trees(out@) == goal.take(it.index()),
            {
                proof {
                    lemma_item_smaller(v@, it.index());
                }
                assert(trees(all)[it.index()] == x@);
                let ghost prev = out@;
                out.push(expand_value(x));
                assert(trees(out@) =~= trees(prev).push(goal[it.index()]));
                assert(trees(out@) =~= goal.take(it.index() + 1));
            }
            assert(trees(out@) =~= goal);
            Json::Array(out)
        },
        other => other,
    }
}

/// An entry of an object, to be ordered by its key.
pub struct KeyEntry {
    pub key: String,
    pub value: Json,
}

impl View for KeyEntry {
    type V = (Seq<char>, JsonTree);

    open spec fn view(&self) -> (Seq<char>, JsonTree) {
        (self.key@, self.value@)
    }
}

impl Ranked for KeyEntry {
    open spec fn ranked(a: (Seq<char>, JsonTree), b: (Seq<char>, JsonTree)) -> bool {
        text_le(a.0, b.0)
    }

    fn not_after(&self, other: &Self) -> (b: bool) {
        text_not_after(self.key.as_str(), other.key.as_str())
    }
}

/// A value with the entries of all objects in the order of their keys.
pub open spec fn key_sorted(t: JsonTree) -> JsonTree
    decreases t,
{
    match t {
        JsonTree::Object(m) => JsonTree::Object(in_order::<KeyEntry>(sorted_entries(m))),
        JsonTree::Array(a) => JsonTree::Array(sorted_items(a)),
        other => other,
    }
}

/// Some values, each with sorted keys.
pub open spec fn sorted_items(a: Seq<JsonTree>) -> Seq<JsonTree>
    decreases a,
{
    Seq::new(
        a.len(),
        |i: int|
            if 0 <= i < a.len() {
                key_sorted(a[i])
            } else {
                JsonTree::Null
            },
    )
}

/// Some entries, each with a value with sorted keys.
pub open spec fn sorted_entries(m: Seq<(Seq<char>, JsonTree)>) -> Seq<(Seq<char>, JsonTree)>
    decreases m,
{
    Seq::new(
        m.len(),
        |i: int|
            if 0 <= i < m.len() {
                (m[i].0, key_sorted(m[i].1))
            } else {
                (seq![], JsonTree::Null)
            },
    )
}

/// Sorting keys in some values is sorting them in each.
pub proof fn lemma_sorted_items(a: Seq<JsonTree>)
    ensures
        sorted_items(a).len() == a.len(),
        forall|i: int| 0 <= i < a.len() ==> #[trigger] sorted_items(a)[i] == key_sorted(a[i]),
{
    reveal_with_fuel(key_sorted, 2);
    reveal_with_fuel(sorted_items, 2);
}

/// Sorting keys in the values of some entries is sorting them in each.
pub proof fn lemma_sorted_entries(m: Seq<(Seq<char>, JsonTree)>)
    ensures
        sorted_entries(m).len() == m.len(),
        forall|i: int|
            0 <= i < m.len() ==> #[trigger] sorted_entries(m)[i] == (m[i].0, key_sorted(m[i].1)),
{
    reveal_with_fuel(key_sorted, 2);
    reveal_with_fuel(sorted_entries, 2);
}

/// Puts the entries of all objects in a value in the order of their keys.
pub fn sort_object_keys(v: Json) -> (r: Json)
    requires
        proper(v@),
    ensures
        r@ == key_sorted(v@),
    decreases v@,
{
    broadcast use lemma_json_view;

    match v {
        Json::Object(m) => {
            let ghost all = m@;
            let ghost goal = sorted_entries(entries(all));
            proof {
                lemma_sorted_entries(entries(all));
            }
            let mut rows: Vec<KeyEntry> = Vec::new();
            for x in it: m
                invariant
                    it.seq() == all,
                    v@ == JsonTree::Object(entries(all)),
                    proper(v@),
                    goal.len() == all.len(),
                    forall|i: int|
                        0 <= i < all.len() ==> #[trigger] goal[i] == (
                            entries(all)[i].0,
                            key_sorted(entries(all)[i].1),
                        ),
                    views(rows@) == goal.take(it.index()),
            {
                proof {
                    lemma_entry_smaller(v@, it.index());
                }
                assert(entries(all)[it.index()] == (x.0@, x.1@));
                let ghost prev = rows@;
                let (key, w) = x;
                rows.push(KeyEntry { key, value: sort_object_keys(w) });
                assert(views(rows@) =~= views(prev).push(goal[it.index()]));
                assert(views(rows@) =~= goal.take(it.index() + 1));
            }
            assert(views(rows@) =~= goal);
            let sorted = sort_rows(rows);
            let ghost given = sorted@;
            let mut out: Vec<(String, Json)> = Vec::new();
            for row in it: sorted
                invariant
                    it.seq() == given,
                    entries(out@) == views(given).take(it.index()),
            {
                let ghost prev = out@;
                out.push((row.key, row.value));
                assert(entries(out@) =~= entries(prev).push(row@));
                assert(entries(out@) =~= views(given).take(it.index() + 1));
            }
            assert(entries(out@) =~= views(given));
            Json::Object(out)
        },
        Json::Array(a) => {
            let ghost all = a@;
            let ghost goal = sorted_items(trees(all));
            proof {
                lemma_sorted_items(trees(all));
            }
            let mut out: Vec<Json> = Vec::new();
            for x in it: a
                invariant
                    it.seq() == all,
                    v@ == JsonTree::Array(trees(all)),
                    proper(v@),
                    goal.len() == all.len(),
                    forall|i: int|
                        0 <= i < all.len() ==> #[trigger] goal[i] == key_sorted(trees(all)[i]),
                    trees(out@) == goal.take(it.index()),
            {
                proof {
                    lemma_item_smaller(v@, it.index());
                }
                assert(trees(all)[it.index()] == x@);
                let ghost prev = out@;
                out.push(sort_object_keys(x));
                assert(trees(out@) =~= trees(prev).push(goal[it.index()]));
                assert(trees(out@) =~= goal.take(it.index() + 1));
            }
            assert(trees(out@) =~= goal);
            Json::Array(out)
        },
        other => other,
    }
}

} // verus!
