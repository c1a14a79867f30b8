//! JSON values, read and written with `serde_json`.

use vstd::prelude::*;

verus! {

/// Numbers of `serde_json`, which are opaque here.
#[verifier::external_type_specification]
#[verifier::external_body]
pub struct ExJsonNumber(serde_json::Number);

/// Values of `serde_json`, which are opaque here. What one holds has a name, see
/// [`value_tree`].
#[verifier::external_type_specification]
#[verifier::external_body]
pub struct ExJsonValue(serde_json::Value);

/// Errors of `serde_json`, which are opaque here.
#[verifier::external_type_specification]
#[verifier::external_body]
pub struct ExJsonError(serde_json::Error);

/// A number in a JSON value.
pub enum JsonNumber {
    /// A whole number that is not negative.
    PosInt(u64),
    /// A negative whole number.
    NegInt(i64),
    /// Any other number.
    Float(serde_json::Number),
}

/// A JSON value. The entries of an object keep their order.
pub enum Json {
    Null,
    Bool(bool),
    Number(JsonNumber),
    Text(String),
    Array(Vec<Json>),
    Object(Vec<(String, Json)>),
}

/// What a [`Json`] stands for.
#[verifier::ext_equal]
pub enum JsonTree {
    Null,
    Bool(bool),
    Number(JsonNumber),
    Text(Seq<char>),
    Array(Seq<JsonTree>),
    Object(Seq<(Seq<char>, JsonTree)>),
}

impl View for Json {
    type V = JsonTree;

    open spec fn view(&self) -> JsonTree
        decreases self,
    {
        match *self {
            Json::Null => JsonTree::Null,
            Json::Bool(b) => JsonTree::Bool(b),
            Json::Number(n) => JsonTree::Number(n),
            Json::Text(s) => JsonTree::Text(s@),
            Json::Array(v) => JsonTree::Array(
                Seq::new(
                    v@.len(),
                    |i: int|
                        if 0 <= i < v@.len() {
                            v@[i].view()
                        } else {
                            JsonTree::Null
                        },
                ),
            ),
            Json::Object(v) => JsonTree::Object(
                Seq::new(
                    v@.len(),
                    |i: int|
                        if 0 <= i < v@.len() {
                            (v@[i].0@, v@[i].1.view())
                        } else {
                            (seq![], JsonTree::Null)
                        },
                ),
            ),
        }
    }
}

/// What each of some values stands for.
pub open spec fn trees(items: Seq<Json>) -> Seq<JsonTree> {
    items.map_values(|j: Json| j@)
}

/// What each of some entries stands for.
pub open spec fn entries(items: Seq<(String, Json)>) -> Seq<(Seq<char>, JsonTree)> {
    items.map_values(|e: (String, Json)| (e.0@, e.1@))
}

/// What an array and an object stand for.
pub broadcast proof fn lemma_json_view(j: Json)
    ensures
        #![trigger j@]
        j matches Json::Array(v) ==> j@ == JsonTree::Array(trees(v@)),
        j matches Json::Object(v) ==> j@ == JsonTree::Object(entries(v@)),
{
    reveal_with_fuel(<Json as View>::view, 2);
    match j {
        Json::Array(v) => {
            assert(j@->Array_0 =~= trees(v@));
        },
        Json::Object(v) => {
            assert(j@->Object_0 =~= entries(v@));
        },
        _ => {},
    }
}

/// Whether no key occurs twice.
pub open spec fn distinct_keys(m: Seq<(Seq<char>, JsonTree)>) -> bool {
    forall|i: int, j: int|
        0 <= i < j < m.len() ==> (#[trigger] m[i]).0 != (#[trigger] m[j]).0
}

/// Whether no object in a value has a key twice, and each number is of the kind that it
/// is said to be.
pub open spec fn proper(t: JsonTree) -> bool
    decreases t,
{
    match t {
        JsonTree::Number(JsonNumber::NegInt(n)) => n < 0,
        JsonTree::Number(JsonNumber::Float(n)) => fractional(n),
        JsonTree::Array(a) => forall|i: int| 0 <= i < a.len() ==> proper(#[trigger] a[i]),
        JsonTree::Object(m) => distinct_keys(m) && forall|i: int|
            0 <= i < m.len() ==> proper((#[trigger] m[i]).1),
        _ => true,
    }
}

/// Whether every number in a value is a whole number.
pub open spec fn whole(t: JsonTree) -> bool
    decreases t,
{
    match t {
        JsonTree::Number(JsonNumber::Float(_)) => false,
        JsonTree::Array(a) => forall|i: int| 0 <= i < a.len() ==> whole(#[trigger] a[i]),
        JsonTree::Object(m) => forall|i: int| 0 <= i < m.len() ==> whole((#[trigger] m[i]).1),
        _ => true,
    }
}

/// Whether arrays and objects in a value are nested at most `n` deep.
pub open spec fn nested(t: JsonTree, n: int) -> bool
    decreases t,
{
    match t {
        JsonTree::Array(a) => n > 0 && forall|i: int|
            0 <= i < a.len() ==> nested(#[trigger] a[i], n - 1),
        JsonTree::Object(m) => n > 0 && forall|i: int|
            0 <= i < m.len() ==> nested((#[trigger] m[i]).1, n - 1),
        _ => true,
    }
}

/// An item of an array is smaller than the array.
pub proof fn lemma_item_smaller(t: JsonTree, i: int)
    requires
        t is Array,
        0 <= i < t->Array_0.len(),
    ensures
        decreases_to!(t => t->Array_0[i]),
{
}

/// The value of an entry of an object is smaller than the object.
pub proof fn lemma_entry_smaller(t: JsonTree, i: int)
    requires
        t is Object,
        0 <= i < t->Object_0.len(),
    ensures
        decreases_to!(t => t->Object_0[i].1),
{
    assert(decreases_to!(t->Object_0 => t->Object_0[i]));
    assert(decreases_to!(t->Object_0[i] => t->Object_0[i].1));
}

/// What a value of `serde_json` holds.
pub uninterp spec fn value_tree(v: serde_json::Value) -> JsonTree;

/// The value that `serde_json` reads from a text, if it reads one.
pub uninterp spec fn text_tree(text: Seq<char>) -> Option<JsonTree>;

/// The text that `serde_json` writes for a value.
pub uninterp spec fn tree_text(t: JsonTree) -> Seq<char>;

/// Whether `serde_json` takes a number for one that is not whole.
pub uninterp spec fn fractional(n: serde_json::Number) -> bool;

/// Whether `serde_json` takes two numbers that are not whole for the same.
pub uninterp spec fn floats_equal(a: serde_json::Number, b: serde_json::Number) -> bool;

/// One level of a value of `serde_json`.
enum ValueParts {
    Null,
    Bool(bool),
    PosInt(u64),
    NegInt(i64),
    Float(serde_json::Number),
    Text(String),
    Array(Vec<serde_json::Value>),
    Object(Vec<(String, serde_json::Value)>),
}

spec fn parts_tree(p: ValueParts) -> JsonTree {
    match p {
        ValueParts::Null => JsonTree::Null,
        ValueParts::Bool(b) => JsonTree::Bool(b),
        ValueParts::PosInt(n) => JsonTree::Number(JsonNumber::PosInt(n)),
        ValueParts::NegInt(n) => JsonTree::Number(JsonNumber::NegInt(n)),
        ValueParts::Float(n) => JsonTree::Number(JsonNumber::Float(n)),
        ValueParts::Text(s) => JsonTree::Text(s@),
        ValueParts::Array(a) => JsonTree::Array(
            a@.map_values(|v: serde_json::Value| value_tree(v)),
        ),
        ValueParts::Object(m) => JsonTree::Object(
            m@.map_values(|e: (String, serde_json::Value)| (e.0@, value_tree(e.1))),
        ),
    }
}

/// Calls `serde_json::from_str`. Claims that whether it reads a value, and which
/// one, depends on the text alone.
#[verifier::external_body]
fn parse_value(text: &str) -> (r: Result<serde_json::Value, serde_json::Error>)
    ensures
        match r {
            Ok(v) => text_tree(text@) == Some(value_tree(v)),
            Err(_) => text_tree(text@) is None,
        },
{
    serde_json::from_str(text)
}

/// Takes a `serde_json::Value` apart by its variants, and a number in it by
/// `Number::as_u64` and `Number::as_i64`. Claims that nothing is lost, that the keys
/// of an object are all different, that a number that is no `u64` but an `i64` is
/// negative, and that one that is neither is not whole.
#[verifier::external_body]
fn take_apart(v: serde_json::Value) -> (p: ValueParts)
    ensures
        parts_tree(p) == value_tree(v),
        parts_tree(p) matches JsonTree::Object(m) ==> distinct_keys(m),
        p matches ValueParts::NegInt(n) ==> n < 0,
        p matches ValueParts::Float(n) ==> fractional(n),
{
    match v {
        serde_json::Value::Null => ValueParts::Null,
        serde_json::Value::Bool(b) => ValueParts::Bool(b),
        serde_json::Value::Number(n) => match (n.as_u64(), n.as_i64()) {
            (Some(u), _) => ValueParts::PosInt(u),
            (None, Some(i)) => ValueParts::NegInt(i),
            (None, None) => ValueParts::Float(n),
        },
        serde_json::Value::String(s) => ValueParts::Text(s),
        serde_json::Value::Array(a) => ValueParts::Array(a),
        serde_json::Value::Object(m) => ValueParts::Object(m.into_iter().collect()),
    }
}

/// Puts a `serde_json::Value` together. Claims that it holds what was put in, for
/// objects without a key that occurs twice, in the order given, and for numbers that
/// are of the kind that they are said to be.
#[verifier::external_body]
fn put_together(p: ValueParts) -> (v: serde_json::Value)
    requires
        parts_tree(p) matches JsonTree::Object(m) ==> distinct_keys(m),
        p matches ValueParts::NegInt(n) ==> n < 0,
        p matches ValueParts::Float(n) ==> fractional(n),
    ensures
        value_tree(v) == parts_tree(p),
{
    match p {
        ValueParts::Null => serde_json::Value::Null,
        ValueParts::Bool(b) => serde_json::Value::Bool(b),
        ValueParts::PosInt(n) => serde_json::Value::Number(n.into()),
        ValueParts::NegInt(n) => serde_json::Value::Number(n.into()),
        ValueParts::Float(n) => serde_json::Value::Number(n),
        ValueParts::Text(s) => serde_json::Value::String(s),
        ValueParts::Array(a) => serde_json::Value::Array(a),
        ValueParts::Object(m) => serde_json::Value::Object(m.into_iter().collect()),
    }
}

/// Calls `serde_json::to_string` on a value, for which it does not fail. Claims that
/// the text depends on the value alone, and that reading it gives the value back
/// where all numbers are whole and nothing is nested deeper than `serde_json` reads.
#[verifier::external_body]
fn write_value(v: &serde_json::Value) -> (s: String)
    ensures
        s@ == tree_text(value_tree(*v)),
        whole(value_tree(*v)) && nested(value_tree(*v), 127) ==> text_tree(s@) == Some(
            value_tree(*v),
        ),
{
    serde_json::to_string(v).unwrap()
}

/// Calls `==` of `serde_json::Number`. Claims that the result depends on the numbers
/// alone.
#[verifier::external_body]
pub(crate) fn same_float(a: &serde_json::Number, b: &serde_json::Number) -> (r: bool)
    ensures
        r == floats_equal(*a, *b),
{
    *a == *b
}

/// Calls `clone` of `serde_json::Number`. Claims that it gives the same number.
#[verifier::external_body]
pub(crate) fn copy_float(n: &serde_json::Number) -> (r: serde_json::Number)
    ensures
        r == *n,
{
    n.clone()
}

fn to_json(v: serde_json::Value) -> (j: Json)
    ensures
        j@ == value_tree(v),
        proper(j@),
    decreases value_tree(v),
{
    broadcast use lemma_json_view;

    match take_apart(v) {
        ValueParts::Null => Json::Null,
        ValueParts::Bool(b) => Json::Bool(b),
        ValueParts::PosInt(n) => Json::Number(JsonNumber::PosInt(n)),
        ValueParts::NegInt(n) => Json::Number(JsonNumber::NegInt(n)),
        ValueParts::Float(n) => Json::Number(JsonNumber::Float(n)),
        ValueParts::Text(s) => Json::Text(s),
        ValueParts::Array(a) => {
            let ghost all = a@;
            let ghost goal = value_tree(v)->Array_0;
            let mut out: Vec<Json> = Vec::new();
            for x in it: a
                invariant
                    it.seq() == all,
                    value_tree(v) == JsonTree::Array(goal),
                    goal == all.map_values(|v: serde_json::Value| value_tree(v)),
                    trees(out@) == goal.take(it.index()),
                    forall|i: int| 0 <= i < it.index() ==> proper(#[trigger] goal[i]),
            {
                assert(goal[it.index()] == value_tree(x));
                proof {
                    lemma_item_smaller(value_tree(v), it.index());
                }
                let ghost prev = out@;
                out.push(to_json(x));
                assert(trees(out@) =~= trees(prev).push(value_tree(x)));
                assert(trees(out@) =~= goal.take(it.index() + 1));
            }
            assert(trees(out@) =~= goal);
            Json::Array(out)
        },
        ValueParts::Object(m) => {
            let ghost all = m@;
            let ghost goal = value_tree(v)->Object_0;
            let mut out: Vec<(String, Json)> = Vec::new();
            for x in it: m
                invariant
                    it.seq() == all,
                    value_tree(v) == JsonTree::Object(goal),
                    goal == all.map_values(
                        |e: (String, serde_json::Value)| (e.0@, value_tree(e.1)),
                    ),
                    entries(out@) == goal.take(it.index()),
                    forall|i: int| 0 <= i < it.index() ==> proper((#[trigger] goal[i]).1),
            {
                assert(goal[it.index()] == (x.0@, value_tree(x.1)));
                proof {
                    lemma_entry_smaller(value_tree(v), it.index());
                }
                let ghost prev = out@;
                let (k, w) = x;
                out.push((k, to_json(w)));
                assert(entries(out@) =~= entries(prev).push((k@, value_tree(w))));
                assert(entries(out@) =~= goal.take(it.index() + 1));
            }
            assert(entries(out@) =~= goal);
            Json::Object(out)
        },
    }
}

fn from_json(j: Json) -> (v: serde_json::Value)
    requires
        proper(j@),
    ensures
        value_tree(v) == j@,
    decreases j@,
{
    broadcast use lemma_json_view;

    match j {
        Json::Null => put_together(ValueParts::Null),
        Json::Bool(b) => put_together(ValueParts::Bool(b)),
        Json::Number(JsonNumber::PosInt(n)) => put_together(ValueParts::PosInt(n)),
        Json::Number(JsonNumber::NegInt(n)) => put_together(ValueParts::NegInt(n)),
        Json::Number(JsonNumber::Float(n)) => put_together(ValueParts::Float(n)),
        Json::Text(s) => put_together(ValueParts::Text(s)),
        Json::Array(a) => {
            let ghost all = a@;
            let ghost f = |v: serde_json::Value| value_tree(v);
            let mut out: Vec<serde_json::Value> = Vec::new();
            for x in it: a
                invariant
                    it.seq() == all,
                    f == (|v: serde_json::Value| value_tree(v)),
                    j@ == JsonTree::Array(trees(all)),
                    proper(j@),
                    out@.map_values(f) == trees(all).take(it.index()),
            {
                assert(trees(all)[it.index()] == x@);
                proof {
                    lemma_item_smaller(j@, it.index());
                }
                let ghost prev = out@;
                let y = from_json(x);
                out.push(y);
                assert(out@.map_values(f) =~= prev.map_values(f).push(value_tree(y)));
                assert(out@.map_values(f) =~= trees(all).take(it.index() + 1));
            }
            assert(out@.map_values(f) =~= trees(all));
            put_together(ValueParts::Array(out))
        },
        Json::Object(m) => {
            let ghost all = m@;
            let ghost f = |e: (String, serde_json::Value)| (e.0@, value_tree(e.1));
            let mut out: Vec<(String, serde_json::Value)> = Vec::new();
            for x in it: m
                invariant
                    it.seq() == all,
                    f == (|e: (String, serde_json::Value)| (e.0@, value_tree(e.1))),
                    j@ == JsonTree::Object(entries(all)),
                    proper(j@),
                    out@.map_values(f) == entries(all).take(it.index()),
            {
                assert(entries(all)[it.index()] == (x.0@, x.1@));
                proof {
                    lemma_entry_smaller(j@, it.index());
                }
                let ghost prev = out@;
                let (k, w) = x;
                let y = from_json(w);
                out.push((k, y));
                assert(out@.map_values(f) =~= prev.map_values(f).push((k@, value_tree(y))));
                assert(out@.map_values(f) =~= entries(all).take(it.index() + 1));
            }
            assert(out@.map_values(f) =~= entries(all));
            put_together(ValueParts::Object(out))
        },
    }
}

/// Reads a value from a text.
pub fn parse_json(text: &str) -> (r: Option<Json>)
    ensures
        match r {
            Some(j) => text_tree(text@) == Some(j@) && proper(j@),
            None => text_tree(text@) is None,
        },
{
    match parse_value(text) {
        Ok(v) => Some(to_json(v)),
        Err(_) => None,
    }
}

/// Writes a value as a text.
pub fn json_text(j: Json) -> (s: String)
    requires
        proper(j@),
    ensures
        s@ == tree_text(j@),
        whole(j@) && nested(j@, 127) ==> text_tree(s@) == Some(j@),
{
    let v = from_json(j);
    write_value(&v)
}

} // verus!
