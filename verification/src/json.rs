//! JSON values as the library holds them, and their texts.
//!
//! Reading and writing the texts is the work of the `serde_json` crate. Its
//! values are taken apart and put together here one layer at a time.
use vstd::prelude::*;

use crate::decimal::decimal;
use crate::order::{name_added, rising};
use crate::text::{le, same, text_le, text_le_total};

verus! {

/// A JSON value. A number is held as its text; the entries of an object are
/// in rising order of their names.
#[derive(Debug)]
pub enum Json {
    Null,
    Bool(bool),
    Number(String),
    Text(String),
    Array(Vec<Json>),
    Object(Vec<(String, Json)>),
}

/// The contents of a [`Json`].
pub enum JsonView {
    Null,
    Bool(bool),
    Number(Seq<char>),
    Text(Seq<char>),
    Array(Seq<JsonView>),
    Object(Seq<(Seq<char>, JsonView)>),
}

/// The contents of a JSON value.
pub open spec fn contents(j: Json) -> JsonView
    decreases j,
{
    match j {
        Json::Null => JsonView::Null,
        Json::Bool(b) => JsonView::Bool(b),
        Json::Number(t) => JsonView::Number(t@),
        Json::Text(t) => JsonView::Text(t@),
        Json::Array(v) => JsonView::Array(
            Seq::new(
                v@.len(),
                |i: int|
                    if 0 <= i < v@.len() {
                        contents(v@[i])
                    } else {
                        JsonView::Null
                    },
            ),
        ),
        Json::Object(v) => JsonView::Object(
            Seq::new(
                v@.len(),
                |i: int|
                    if 0 <= i < v@.len() {
                        (v@[i].0@, contents(v@[i].1))
                    } else {
                        (Seq::empty(), JsonView::Null)
                    },
            ),
        ),
    }
}

impl View for Json {
    type V = JsonView;

    open spec fn view(&self) -> JsonView {
        contents(*self)
    }
}

/// Whether the entries of every object are in rising order of their names.
pub open spec fn tidy(v: JsonView) -> bool
    decreases v,
{
    match v {
        JsonView::Array(a) => forall|i: int| 0 <= i < a.len() ==> tidy(#[trigger] a[i]),
        JsonView::Object(o) => rising(entry_names(o)) && forall|i: int|
            0 <= i < o.len() ==> tidy((#[trigger] o[i]).1),
        _ => true,
    }
}

/// A value with its numbers as `serde_json` writes them.
pub open spec fn written(v: JsonView) -> JsonView
    decreases v,
{
    match v {
        JsonView::Number(t) => number_view(t),
        JsonView::Array(a) => JsonView::Array(
            Seq::new(
                a.len(),
                |i: int|
                    if 0 <= i < a.len() {
                        written(a[i])
                    } else {
                        JsonView::Null
                    },
            ),
        ),
        JsonView::Object(o) => JsonView::Object(
            Seq::new(
                o.len(),
                |i: int|
                    if 0 <= i < o.len() {
                        (o[i].0, written(o[i].1))
                    } else {
                        (Seq::empty(), JsonView::Null)
                    },
            ),
        ),
        _ => v,
    }
}

/// A value of the `serde_json` crate.
#[verifier::external_type_specification]
#[verifier::external_body]
pub struct ExValue(serde_json::Value);

/// What a `serde_json` value holds, down to its innermost values.
pub uninterp spec fn value_view(v: serde_json::Value) -> JsonView;

/// What `serde_json::from_str` makes of a text: a value, or the text of its
/// error.
pub uninterp spec fn json_parse(text: Seq<char>) -> Result<JsonView, Seq<char>>;

/// What `serde_json` writes for a value in its compact form.
pub uninterp spec fn json_text(v: JsonView) -> Seq<char>;

/// What `serde_json` writes for a value in its indented form.
pub uninterp spec fn json_pretty(v: JsonView) -> Seq<char>;

/// What `serde_json` makes of the text of a number: a number with the text
/// that it writes for it, or null.
pub uninterp spec fn number_view(text: Seq<char>) -> JsonView;

/// One layer of a value of the `serde_json` crate.
#[derive(Debug)]
pub enum Layer {
    Null,
    Bool(bool),
    Number(String),
    Text(String),
    Array(Vec<serde_json::Value>),
    Object(Vec<(String, serde_json::Value)>),
}

/// What some values hold.
pub open spec fn array_view(v: Seq<serde_json::Value>) -> Seq<JsonView> {
    v.map_values(|x: serde_json::Value| value_view(x))
}

/// What some named values hold.
pub open spec fn object_view(v: Seq<(String, serde_json::Value)>) -> Seq<(Seq<char>, JsonView)> {
    v.map_values(|x: (String, serde_json::Value)| (x.0@, value_view(x.1)))
}

/// The names of some entries.
pub open spec fn entry_names(v: Seq<(Seq<char>, JsonView)>) -> Seq<Seq<char>> {
    v.map_values(|x: (Seq<char>, JsonView)| x.0)
}

/// What a layer holds.
pub open spec fn layer_view(l: Layer) -> JsonView {
    match l {
        Layer::Null => JsonView::Null,
        Layer::Bool(b) => JsonView::Bool(b),
        Layer::Number(t) => JsonView::Number(t@),
        Layer::Text(t) => JsonView::Text(t@),
        Layer::Array(v) => JsonView::Array(array_view(v@)),
        Layer::Object(v) => JsonView::Object(object_view(v@)),
    }
}

/// Reads a text with `serde_json::from_str`. The same text always gives the
/// same value, or the same error text.
#[verifier::external_body]
fn read_value(text: &str) -> (r: Result<serde_json::Value, String>)
    ensures
        match r {
            Ok(v) => json_parse(text@) == Ok::<JsonView, Seq<char>>(value_view(v)),
            Err(m) => json_parse(text@) == Err::<JsonView, Seq<char>>(m@),
        },
{
    serde_json::from_str::<serde_json::Value>(text).map_err(|error| error.to_string())
}

/// Takes the outer layer off a `serde_json::Value` by its variant. A number is
/// taken as the text that `serde_json::Number` writes for itself. The map of
/// an object is a `BTreeMap`, which hands out each name once, in rising order.
#[verifier::external_body]
fn take_layer(v: serde_json::Value) -> (r: Layer)
    ensures
        layer_view(r) == value_view(v),
        match r {
            Layer::Object(o) => rising(entry_names(object_view(o@))),
            _ => true,
        },
{
    match v {
        serde_json::Value::Null => Layer::Null,
        serde_json::Value::Bool(b) => Layer::Bool(b),
        serde_json::Value::Number(n) => Layer::Number(n.to_string()),
        serde_json::Value::String(s) => Layer::Text(s),
        serde_json::Value::Array(a) => Layer::Array(a),
        serde_json::Value::Object(m) => Layer::Object(m.into_iter().collect()),
    }
}

/// Puts a `serde_json::Value` together from its outer layer, by the variants
/// of `serde_json::Value`. The text of a number is read by
/// `serde_json::from_str`; a whole number in its plain decimal form is kept as
/// it is. What other numbers come to is only named; with its `float_roundtrip`
/// feature, which is on, the crate reads every number that it wrote as itself.
/// Entries in rising order of their names keep it in a `BTreeMap`.
#[verifier::external_body]
fn put_layer(l: Layer) -> (r: serde_json::Value)
    requires
        match l {
            Layer::Object(o) => rising(entry_names(object_view(o@))),
            _ => true,
        },
    ensures
        match l {
            Layer::Number(t) => value_view(r) == number_view(t@) && forall|n: nat|
                n <= u64::MAX && t@ == #[trigger] decimal(n) ==> value_view(r)
                    == JsonView::Number(t@),
            _ => value_view(r) == layer_view(l),
        },
{
    match l {
        Layer::Null => serde_json::Value::Null,
        Layer::Bool(b) => serde_json::Value::Bool(b),
        Layer::Number(t) => serde_json::from_str::<serde_json::Number>(&t)
            .map_or(serde_json::Value::Null, serde_json::Value::Number),
        Layer::Text(s) => serde_json::Value::String(s),
        Layer::Array(a) => serde_json::Value::Array(a),
        Layer::Object(o) => serde_json::Value::Object(o.into_iter().collect()),
    }
}

/// Writes a `serde_json::Value` in its compact form, by its `Display`. That
/// form is never empty and has no line break in it.
#[verifier::external_body]
fn write_value(v: &serde_json::Value) -> (r: String)
    ensures
        r@ == json_text(value_view(*v)),
        r@.len() > 0,
        forall|i: int| 0 <= i < r@.len() ==> r@[i] != '\n',
{
    v.to_string()
}

/// Writes a `serde_json::Value` in its indented form, with
/// `serde_json::to_string_pretty`, which has no reason to fail on a value.
#[verifier::external_body]
fn write_value_pretty(v: &serde_json::Value) -> (r: String)
    ensures
        r@ == json_pretty(value_view(*v)),
{
    serde_json::to_string_pretty(v).unwrap_or_default()
}

/// A value as the library holds it.
fn from_value(v: serde_json::Value) -> (r: Json)
    ensures
        r@ == value_view(v),
        tidy(r@),
    decreases value_view(v),
{
    match take_layer(v) {
        Layer::Null => Json::Null,
        Layer::Bool(b) => Json::Bool(b),
        Layer::Number(t) => Json::Number(t),
        Layer::Text(t) => Json::Text(t),
        Layer::Array(a) => {
            let ghost all = a@;
            let mut rest = a;
            let mut r: Vec<Json> = Vec::new();
            let ghost mut done: int = 0;
            assert(all.skip(0) =~= all);
            while rest.len() > 0
                invariant
                    0 <= done <= all.len(),
                    rest@ == all.skip(done),
                    r@.len() == done,
                    value_view(v) == JsonView::Array(array_view(all)),
                    forall|i: int|
                        0 <= i < done ==> (#[trigger] r@[i])@ == value_view(all[i]) && tidy(
                            value_view(all[i]),
                        ),
                decreases rest@.len(),
            {
                let x = rest.remove(0);
                assert(array_view(all)[done] == value_view(x));
                proof {
                    let w = value_view(v);
                    assert(w->Array_0[done] == value_view(x));
                    assert(decreases_to!(w => w->Array_0[done]));
                }
                r.push(from_value(x));
                proof {
                    assert(rest@ =~= all.skip(done + 1));
                    done = done + 1;
                }
            }
            let j = Json::Array(r);
            assert(j@->Array_0 =~= array_view(all));
            assert forall|i: int| 0 <= i < all.len() implies tidy(#[trigger] array_view(all)[i]) by {
                assert(r@[i]@ == value_view(all[i]));
            }
            j
        },
        Layer::Object(o) => {
            let ghost all = o@;
            let mut rest = o;
            let mut r: Vec<(String, Json)> = Vec::new();
            let ghost mut done: int = 0;
            assert(all.skip(0) =~= all);
            while rest.len() > 0
                invariant
                    0 <= done <= all.len(),
                    rest@ == all.skip(done),
                    r@.len() == done,
                    value_view(v) == JsonView::Object(object_view(all)),
                    forall|i: int|
                        0 <= i < done ==> (#[trigger] r@[i]).0@ == all[i].0@ && r@[i].1@
                            == value_view(all[i].1) && tidy(value_view(all[i].1)),
                decreases rest@.len(),
            {
                let (name, x) = rest.remove(0);
                assert(object_view(all)[done] == (name@, value_view(x)));
                proof {
                    let w = value_view(v);
                    assert(w->Object_0[done].1 == value_view(x));
                    assert(decreases_to!(w => w->Object_0[done].1));
                }
                r.push((name, from_value(x)));
                proof {
                    assert(rest@ =~= all.skip(done + 1));
                    done = done + 1;
                }
            }
            let j = Json::Object(r);
            assert(j@->Object_0 =~= object_view(all));
            assert forall|i: int| 0 <= i < all.len() implies tidy(
                (#[trigger] object_view(all)[i]).1,
            ) by {
                assert(r@[i].1@ == value_view(all[i].1));
            }
            j
        },
    }
}

/// A value as the `serde_json` crate holds it.
fn to_value(j: &Json) -> (r: serde_json::Value)
    requires
        tidy(j@),
    ensures
        value_view(r) == written(j@),
    decreases j,
{
    match j {
        Json::Null => put_layer(Layer::Null),
        Json::Bool(b) => put_layer(Layer::Bool(*b)),
        Json::Number(t) => put_layer(Layer::Number(t.clone())),
        Json::Text(t) => put_layer(Layer::Text(t.clone())),
        Json::Array(v) => {
            let mut r: Vec<serde_json::Value> = Vec::new();
            let mut i: usize = 0;
            while i < v.len()
                invariant
                    i <= v@.len(),
                    r@.len() == i,
                    *j == Json::Array(*v),
                    tidy(j@),
                    forall|k: int| 0 <= k < i ==> value_view(#[trigger] r@[k]) == written(v@[k]@),
                decreases v@.len() - i,
            {
                assert(j@->Array_0[i as int] == v@[i as int]@);
                r.push(to_value(&v[i]));
                i += 1;
            }
            assert(array_view(r@) =~= written(j@)->Array_0) by {
                assert forall|k: int| 0 <= k < r@.len() implies array_view(r@)[k] == written(
                    j@,
                )->Array_0[k] by {
                    assert(value_view(r@[k]) == written(v@[k]@));
                    assert(j@->Array_0[k] == v@[k]@);
                }
            }
            put_layer(Layer::Array(r))
        },
        Json::Object(v) => {
            let mut r: Vec<(String, serde_json::Value)> = Vec::new();
            let mut i: usize = 0;
            while i < v.len()
                invariant
                    i <= v@.len(),
                    r@.len() == i,
                    *j == Json::Object(*v),
                    tidy(j@),
                    forall|k: int|
                        0 <= k < i ==> (#[trigger] r@[k]).0@ == v@[k].0@ && value_view(r@[k].1)
                            == written(v@[k].1@),
                decreases v@.len() - i,
            {
                assert(j@->Object_0[i as int] == (v@[i as int].0@, v@[i as int].1@));
                let item = &v[i];
                r.push((item.0.clone(), to_value(&item.1)));
                i += 1;
            }
            proof {
                let o = j@->Object_0;
                let w = written(j@)->Object_0;
                assert forall|k: int| 0 <= k < r@.len() implies object_view(r@)[k] == w[k] by {
                    assert(value_view(r@[k].1) == written(v@[k].1@));
                    assert(o[k] == (v@[k].0@, v@[k].1@));
                }
                assert(object_view(r@) =~= w);
                assert(entry_names(object_view(r@)) =~= entry_names(o));
            }
            put_layer(Layer::Object(r))
        },
    }
}

/// Reads a JSON text.
pub fn parse_json(text: &str) -> (r: Result<Json, String>)
    ensures
        match r {
            Ok(j) => json_parse(text@) == Ok::<JsonView, Seq<char>>(j@) && tidy(j@),
            Err(m) => json_parse(text@) == Err::<JsonView, Seq<char>>(m@),
        },
{
    match read_value(text) {
        Ok(v) => Ok(from_value(v)),
        Err(m) => Err(m),
    }
}

/// Writes a JSON value in one line.
pub fn render_json(j: &Json) -> (r: String)
    requires
        tidy(j@),
    ensures
        r@ == json_text(written(j@)),
        forall|i: int| 0 <= i < r@.len() ==> r@[i] != '\n',
{
    write_value(&to_value(j))
}

/// Writes a JSON value over several lines.
pub fn render_pretty(j: &Json) -> (r: String)
    requires
        tidy(j@),
    ensures
        r@ == json_pretty(written(j@)),
{
    write_value_pretty(&to_value(j))
}

/// A text that holds a JSON value, as `serde_json` writes that value.
pub open spec fn canonical(text: Seq<char>) -> Option<Seq<char>> {
    match json_parse(text) {
        Ok(v) => Some(json_text(v)),
        Err(_) => None,
    }
}

/// A text that holds a JSON value, as `serde_json` writes that value; none
/// where it holds none.
pub fn canonical_json(text: &str) -> (r: Option<String>)
    ensures
        match r {
            Some(t) => canonical(text@) == Some(t@) && t@.len() > 0 && forall|i: int|
                0 <= i < t@.len() ==> t@[i] != '\n',
            None => canonical(text@) is None,
        },
{
    match read_value(text) {
        Ok(v) => Some(write_value(&v)),
        Err(_) => None,
    }
}

/// The entry of an object with a name.
pub open spec fn entry(o: Seq<(Seq<char>, JsonView)>, name: Seq<char>) -> Option<JsonView>
    decreases o.len(),
{
    if o.len() == 0 {
        None
    } else if o[0].0 == name {
        Some(o[0].1)
    } else {
        entry(o.drop_first(), name)
    }
}

/// The field of a value with a name; none where it is no object.
pub open spec fn field(v: JsonView, name: Seq<char>) -> Option<JsonView> {
    match v {
        JsonView::Object(o) => entry(o, name),
        _ => None,
    }
}

/// A value as text, where it is text.
pub open spec fn as_text(v: Option<JsonView>) -> Option<Seq<char>> {
    match v {
        Some(JsonView::Text(t)) => Some(t),
        _ => None,
    }
}

/// A value as a truth value, where it is one.
pub open spec fn as_bool(v: Option<JsonView>) -> Option<bool> {
    match v {
        Some(JsonView::Bool(b)) => Some(b),
        _ => None,
    }
}

/// The text of a field, where it is text.
pub open spec fn text_field(v: JsonView, name: Seq<char>) -> Option<Seq<char>> {
    as_text(field(v, name))
}

/// The field of a value with a name.
pub fn get<'a>(j: &'a Json, name: &str) -> (r: Option<&'a Json>)
    ensures
        match r {
            Some(f) => field(j@, name@) == Some(f@) && (tidy(j@) ==> tidy(f@)),
            None => field(j@, name@) is None,
        },
{
    match j {
        Json::Object(v) => {
            let ghost o = j@->Object_0;
            let mut i: usize = 0;
            assert(o.skip(0) =~= o);
            while i < v.len()
                invariant
                    i <= v@.len(),
                    *j == Json::Object(*v),
                    o == j@->Object_0,
                    entry(o, name@) == entry(o.skip(i as int), name@),
                decreases v@.len() - i,
            {
                let item = &v[i];
                assert(o.skip(i as int)[0] == o[i as int]);
                assert(o[i as int] == (v@[i as int].0@, v@[i as int].1@));
                if same(item.0.as_str(), name) {
                    return Some(&item.1);
                }
                assert(o.skip(i as int).drop_first() =~= o.skip(i + 1));
                i += 1;
            }
            None
        },
        _ => None,
    }
}

/// The text of a field, where it is text.
pub fn get_text<'a>(j: &'a Json, name: &str) -> (r: Option<&'a String>)
    ensures
        match r {
            Some(t) => text_field(j@, name@) == Some(t@),
            None => text_field(j@, name@) is None,
        },
{
    match get(j, name) {
        Some(Json::Text(t)) => Some(t),
        _ => None,
    }
}

/// The truth value of a field, where it is one.
pub fn get_bool(j: &Json, name: &str) -> (r: Option<bool>)
    ensures
        r == as_bool(field(j@, name@)),
{
    match get(j, name) {
        Some(Json::Bool(b)) => Some(*b),
        _ => None,
    }
}

/// The texts among some values.
pub open spec fn texts_in(a: Seq<JsonView>) -> Seq<Seq<char>>
    decreases a.len(),
{
    if a.len() == 0 {
        Seq::empty()
    } else {
        let rest = texts_in(a.drop_last());
        match a.last() {
            JsonView::Text(t) => rest.push(t),
            _ => rest,
        }
    }
}

/// The texts in a field, where it is an array.
pub open spec fn text_list(v: JsonView, name: Seq<char>) -> Seq<Seq<char>> {
    match field(v, name) {
        Some(JsonView::Array(a)) => texts_in(a),
        _ => Seq::empty(),
    }
}

/// The texts in a field, where it is an array.
pub fn get_texts(j: &Json, name: &str) -> (r: Vec<String>)
    ensures
        crate::text::views(r@) == text_list(j@, name@),
{
    let mut r: Vec<String> = Vec::new();
    assert(crate::text::views(r@) =~= Seq::<Seq<char>>::empty());
    match get(j, name) {
        Some(f) => match f {
            Json::Array(v) => {
                let ghost a = f@->Array_0;
                let mut i: usize = 0;
                assert(a.take(0) =~= Seq::<JsonView>::empty());
                while i < v.len()
                    invariant
                        i <= v@.len(),
                        *f == Json::Array(*v),
                        a == f@->Array_0,
                        crate::text::views(r@) == texts_in(a.take(i as int)),
                    decreases v@.len() - i,
                {
                    assert(a.take(i + 1).drop_last() =~= a.take(i as int));
                    assert(a.take(i + 1).last() == v@[i as int]@);
                    let ghost before = r@;
                    match &v[i] {
                        Json::Text(t) => {
                            r.push(t.clone());
                            assert(crate::text::views(r@) =~= crate::text::views(before).push(t@));
                        },
                        _ => {},
                    }
                    i += 1;
                }
                assert(a.take(i as int) =~= a);
                r
            },
            _ => r,
        },
        None => r,
    }
}

/// Some entries with one more, at the place of its name. It takes the place of
/// an entry with the same name.
pub open spec fn put_entry(
    o: Seq<(Seq<char>, JsonView)>,
    name: Seq<char>,
    v: JsonView,
) -> Seq<(Seq<char>, JsonView)>
    decreases o.len(),
{
    if o.len() == 0 {
        seq![(name, v)]
    } else if o.last().0 == name {
        o.drop_last().push((name, v))
    } else if text_le(o.last().0, name) {
        o.push((name, v))
    } else {
        put_entry(o.drop_last(), name, v).push(o.last())
    }
}

/// The entries of an object with some fields.
pub open spec fn record(fields: Seq<(Seq<char>, JsonView)>) -> Seq<(Seq<char>, JsonView)>
    decreases fields.len(),
{
    if fields.len() == 0 {
        fields
    } else {
        put_entry(record(fields.drop_last()), fields.last().0, fields.last().1)
    }
}

/// An object with some fields.
pub open spec fn object_of(fields: Seq<(Seq<char>, JsonView)>) -> JsonView {
    JsonView::Object(record(fields))
}

/// The contents of some entries.
pub open spec fn entries(v: Seq<(String, Json)>) -> Seq<(Seq<char>, JsonView)> {
    v.map_values(|x: (String, Json)| (x.0@, x.1@))
}

/// The names of some entries with one more.
proof fn put_entry_names(o: Seq<(Seq<char>, JsonView)>, name: Seq<char>, v: JsonView)
    ensures
        entry_names(put_entry(o, name, v)) == name_added(entry_names(o), name),
    decreases o.len(),
{
    let names = entry_names(o);
    if o.len() == 0 {
        assert(entry_names(put_entry(o, name, v)) =~= seq![name]);
    } else {
        assert(names.last() == o.last().0);
        assert(names.drop_last() =~= entry_names(o.drop_last()));
        if o.last().0 == name {
            assert(entry_names(put_entry(o, name, v)) =~= names);
        } else if text_le(o.last().0, name) {
            assert(entry_names(put_entry(o, name, v)) =~= names.push(name));
        } else {
            put_entry_names(o.drop_last(), name, v);
            assert(entry_names(put_entry(o, name, v)) =~= entry_names(
                put_entry(o.drop_last(), name, v),
            ).push(o.last().0));
        }
    }
}

/// Entries with one more stay tidy.
proof fn put_entry_tidy(o: Seq<(Seq<char>, JsonView)>, name: Seq<char>, v: JsonView)
    requires
        tidy(JsonView::Object(o)),
        tidy(v),
    ensures
        tidy(JsonView::Object(put_entry(o, name, v))),
{
    put_entry_names(o, name, v);
    crate::order::name_added_is(entry_names(o), name);
    put_entry_values(o, name, v);
}

/// The values of entries with one more are theirs and its own.
proof fn put_entry_values(o: Seq<(Seq<char>, JsonView)>, name: Seq<char>, v: JsonView)
    requires
        forall|i: int| 0 <= i < o.len() ==> tidy((#[trigger] o[i]).1),
        tidy(v),
    ensures
        forall|i: int|
            0 <= i < put_entry(o, name, v).len() ==> tidy((#[trigger] put_entry(o, name, v)[i]).1),
    decreases o.len(),
{
    if o.len() > 0 {
        let t = o.drop_last();
        assert forall|i: int| 0 <= i < t.len() implies tidy((#[trigger] t[i]).1) by {
            assert(t[i] == o[i]);
        }
        assert(tidy(o[o.len() - 1].1));
        put_entry_values(t, name, v);
        let r = put_entry(o, name, v);
        let u = put_entry(t, name, v);
        assert forall|i: int| 0 <= i < r.len() implies tidy((#[trigger] r[i]).1) by {
            if o.last().0 == name || text_le(o.last().0, name) {
                if i < r.len() - 1 {
                    assert(r[i] == o[i]);
                }
            } else if i < u.len() {
                assert(r[i] == u[i]);
            }
        }
    }
}

/// Puts one more entry among some.
fn put(o: &mut Vec<(String, Json)>, name: String, value: Json)
    ensures
        entries(final(o)@) == put_entry(entries(old(o)@), name@, value@),
{
    let ghost s = entries(o@);
    let ghost given = o@;
    let mut k: usize = o.len();
    assert(s.take(k as int) =~= s);
    assert(put_entry(s, name@, value@) + s.skip(k as int) =~= put_entry(s, name@, value@));
    while k > 0 && !le(o[k - 1].0.as_str(), name.as_str())
        invariant
            o@ == given,
            s == entries(given),
            k <= s.len(),
            put_entry(s, name@, value@) == put_entry(s.take(k as int), name@, value@) + s.skip(
                k as int,
            ),
        decreases k,
    {
        k -= 1;
        proof {
            text_le_total(name@, name@);
            let t = s.take(k + 1);
            assert(t.drop_last() =~= s.take(k as int));
            assert(t.last() == s[k as int]);
            assert(s[k as int].0 == given[k as int].0@);
            assert(put_entry(s.take(k as int), name@, value@).push(s[k as int]) + s.skip(k + 1)
                =~= put_entry(s.take(k as int), name@, value@) + s.skip(k as int));
        }
    }
    let ghost t = s.take(k as int);
    if k > 0 {
        assert(t.last() == s[k - 1]);
        assert(s[k - 1].0 == given[k - 1].0@);
        if same(o[k - 1].0.as_str(), name.as_str()) {
            let ghost added = (name@, value@);
            let fresh = (name, value);
            o.set(k - 1, fresh);
            assert(entries(o@) =~= t.drop_last().push(added) + s.skip(k as int));
            return;
        }
    }
    let ghost added = (name@, value@);
    assert(put_entry(t, name@, value@) =~= t.push(added));
    o.insert(k, (name, value));
    assert(entries(o@) =~= t.push(added) + s.skip(k as int));
}

/// An object with some fields.
pub fn object(fields: Vec<(String, Json)>) -> (r: Json)
    ensures
        r@ == object_of(entries(fields@)),
        (forall|i: int| 0 <= i < fields@.len() ==> tidy((#[trigger] fields@[i]).1@)) ==> tidy(r@),
{
    let ghost all = fields@;
    let mut rest = fields;
    let mut o: Vec<(String, Json)> = Vec::new();
    let ghost mut done: int = 0;
    let ghost neat = forall|i: int| 0 <= i < all.len() ==> tidy((#[trigger] all[i]).1@);
    assert(all.skip(0) =~= all);
    assert(entries(all).take(0) =~= Seq::<(Seq<char>, JsonView)>::empty());
    assert(entries(o@) =~= Seq::<(Seq<char>, JsonView)>::empty());
    assert(entry_names(entries(o@)) =~= Seq::<Seq<char>>::empty());
    while rest.len() > 0
        invariant
            0 <= done <= all.len(),
            rest@ == all.skip(done),
            entries(o@) == record(entries(all).take(done)),
            neat == (forall|i: int| 0 <= i < all.len() ==> tidy((#[trigger] all[i]).1@)),
            neat ==> tidy(JsonView::Object(entries(o@))),
        decreases rest@.len(),
    {
        let (name, value) = rest.remove(0);
        proof {
            let t = entries(all).take(done + 1);
            assert(t.drop_last() =~= entries(all).take(done));
            assert(t.last() == (name@, value@));
            if neat {
                assert(tidy(all[done].1@));
                put_entry_tidy(entries(o@), name@, value@);
            }
            assert(rest@ =~= all.skip(done + 1));
            done = done + 1;
        }
        put(&mut o, name, value);
    }
    assert(entries(all).take(done) =~= entries(all));
    let j = Json::Object(o);
    assert(j@->Object_0 =~= entries(o@));
    j
}

/// A list of texts.
pub open spec fn text_array(v: Seq<Seq<char>>) -> JsonView {
    JsonView::Array(v.map_values(|t: Seq<char>| JsonView::Text(t)))
}

/// A list of texts.
pub fn array_of_texts(v: &Vec<String>) -> (r: Json)
    ensures
        r@ == text_array(crate::text::views(v@)),
        tidy(r@),
{
    let mut a: Vec<Json> = Vec::new();
    let mut i: usize = 0;
    while i < v.len()
        invariant
            i <= v@.len(),
            a@.len() == i,
            forall|k: int| 0 <= k < i ==> (#[trigger] a@[k])@ == JsonView::Text(v@[k]@),
        decreases v@.len() - i,
    {
        a.push(Json::Text(v[i].clone()));
        i += 1;
    }
    let j = Json::Array(a);
    assert(j@->Array_0 =~= text_array(crate::text::views(v@))->Array_0);
    assert forall|i: int| 0 <= i < j@->Array_0.len() implies tidy(#[trigger] j@->Array_0[i]) by {
        assert(a@[i]@ == JsonView::Text(v@[i]@));
    }
    j
}

} // verus!
