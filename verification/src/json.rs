//! JSON as a tree of plain values.
//!
//! The `serde_json` crate reads the text. What it returns is turned once, level
//! by level, into a tree of this library's own, which everything else works on.
use crate::text;
use vstd::prelude::*;

verus! {

/// A JSON value. Of a number it holds what it is as an unsigned and as a signed
/// 64-bit integer, where it is one.
#[derive(Debug)]
pub enum Json {
    Null,
    Bool(bool),
    Number { unsigned: Option<u64>, signed: Option<i64> },
    Text(String),
    Array(Vec<Json>),
    Object(Vec<(String, Json)>),
}

/// A JSON value as plain data.
pub enum JsonView {
    Null,
    Bool(bool),
    Number { unsigned: Option<u64>, signed: Option<i64> },
    Text(Seq<char>),
    Array(Seq<JsonView>),
    Object(Seq<(Seq<char>, JsonView)>),
}

impl View for Json {
    type V = JsonView;

    open spec fn view(&self) -> JsonView {
        tree(*self)
    }
}

/// The plain data of a JSON value.
pub open spec fn tree(json: Json) -> JsonView
    decreases json,
{
    match json {
        Json::Null => JsonView::Null,
        Json::Bool(b) => JsonView::Bool(b),
        Json::Number { unsigned, signed } => JsonView::Number { unsigned, signed },
        Json::Text(s) => JsonView::Text(s@),
        Json::Array(items) => JsonView::Array(
            Seq::new(
                items@.len(),
                |i: int|
                    if 0 <= i < items@.len() {
                        tree(items@[i])
                    } else {
                        JsonView::Null
                    },
            ),
        ),
        Json::Object(entries) => JsonView::Object(
            Seq::new(
                entries@.len(),
                |i: int|
                    if 0 <= i < entries@.len() {
                        (entries@[i].0@, tree(entries@[i].1))
                    } else {
                        (Seq::empty(), JsonView::Null)
                    },
            ),
        ),
    }
}

/// The plain data of each value of a list.
pub open spec fn trees(items: Seq<Json>) -> Seq<JsonView> {
    items.map_values(|j: Json| j@)
}

/// The value type of the `serde_json` crate.
#[verifier::external_type_specification]
#[verifier::external_body]
pub struct ExValue(serde_json::Value);

/// The error type of the `serde_json` crate.
#[verifier::external_type_specification]
#[verifier::external_body]
pub struct ExError(serde_json::Error);

/// What a `serde_json::Value` holds.
pub uninterp spec fn contents(value: serde_json::Value) -> JsonView;

/// What `serde_json::from_str` reads out of a text: one JSON value and nothing
/// else, or nothing where the text is not that.
pub uninterp spec fn parsed(text: Seq<char>) -> Option<JsonView>;

/// One level of a `serde_json::Value`.
enum Level<'a> {
    Null,
    Bool(bool),
    Number { unsigned: Option<u64>, signed: Option<i64> },
    Text(&'a str),
    Array(&'a Vec<serde_json::Value>),
    Object(Vec<(&'a String, &'a serde_json::Value)>),
}

/// What one level and the values below it hold.
spec fn level_contents(level: Level) -> JsonView {
    match level {
        Level::Null => JsonView::Null,
        Level::Bool(b) => JsonView::Bool(b),
        Level::Number { unsigned, signed } => JsonView::Number { unsigned, signed },
        Level::Text(s) => JsonView::Text(s@),
        Level::Array(items) => JsonView::Array(
            items@.map_values(|v: serde_json::Value| contents(v)),
        ),
        Level::Object(entries) => JsonView::Object(
            entries@.map_values(|e: (&String, &serde_json::Value)| (e.0@, contents(*e.1))),
        ),
    }
}

/// The variants of `serde_json::Value`, told apart. The contract claims that
/// each hands out what it holds: an array its items in order, an object its
/// entries in the order `Map::iter` gives them, a number what `Number::as_u64`
/// and `Number::as_i64` make of it.
#[verifier::external_body]
fn level_of<'a>(value: &'a serde_json::Value) -> (level: Level<'a>)
    ensures
        contents(*value) == level_contents(level),
{
    match value {
        serde_json::Value::Null => Level::Null,
        serde_json::Value::Bool(b) => Level::Bool(*b),
        serde_json::Value::Number(n) => {
            Level::Number { unsigned: n.as_u64(), signed: n.as_i64() }
        },
        serde_json::Value::String(s) => Level::Text(s.as_str()),
        serde_json::Value::Array(items) => Level::Array(items),
        serde_json::Value::Object(map) => Level::Object(map.iter().collect()),
    }
}

/// `serde_json::from_str`, asked for a `serde_json::Value`. The contract names
/// what it reads, and claims an error exactly where it reads nothing.
#[verifier::external_body]
fn read_value(text: &str) -> (value: Result<serde_json::Value, serde_json::Error>)
    ensures
        value matches Ok(v) ==> parsed(text@) == Some(contents(v)),
        value is Err ==> parsed(text@) is None,
{
    serde_json::from_str::<serde_json::Value>(text)
}

/// A `serde_json::Value` as a tree of this library's own.
fn grow(value: &serde_json::Value) -> (json: Json)
    ensures
        json@ == contents(*value),
    decreases contents(*value),
{
    let ghost whole = contents(*value);
    match level_of(value) {
        Level::Null => Json::Null,
        Level::Bool(b) => Json::Bool(b),
        Level::Number { unsigned, signed } => Json::Number { unsigned, signed },
        Level::Text(s) => Json::Text(s.to_owned()),
        Level::Array(items) => {
            let ghost below = items@.map_values(|v: serde_json::Value| contents(v));
            let mut out: Vec<Json> = Vec::new();
            for i in 0..items.len()
                invariant
                    whole == contents(*value),
                    whole == JsonView::Array(below),
                    below == items@.map_values(|v: serde_json::Value| contents(v)),
                    trees(out@) == below.take(i as int),
            {
                let ghost prior = trees(out@);
                assert(below[i as int] == contents(items@[i as int]));
                assert(decreases_to!(whole => whole->Array_0));
                assert(decreases_to!(below => below[i as int]));
                out.push(grow(&items[i]));
                assert(trees(out@) =~= prior.push(below[i as int]));
                assert(below.take(i + 1) =~= prior.push(below[i as int]));
            }
            let json = Json::Array(out);
            proof {
                assert(trees(out@) =~= below);
                if let JsonView::Array(held) = json@ {
                    assert forall|i: int| 0 <= i < held.len() implies held[i] == below[i] by {
                        assert(trees(out@)[i] == out@[i]@);
                    }
                    assert(held =~= below);
                }
            }
            json
        },
        Level::Object(entries) => {
            let ghost below = entries@.map_values(
                |e: (&String, &serde_json::Value)| (e.0@, contents(*e.1)),
            );
            let mut out: Vec<(String, Json)> = Vec::new();
            for i in 0..entries.len()
                invariant
                    whole == contents(*value),
                    whole == JsonView::Object(below),
                    below == entries@.map_values(
                        |e: (&String, &serde_json::Value)| (e.0@, contents(*e.1)),
                    ),
                    out@.len() == i,
                    forall|k: int|
                        0 <= k < i ==> ((#[trigger] out@[k]).0@, out@[k].1@) == below[k],
            {
                assert(below[i as int].1 == contents(*entries@[i as int].1));
                assert(decreases_to!(whole => whole->Object_0));
                assert(decreases_to!(below => below[i as int]));
                assert(decreases_to!(below[i as int] => below[i as int].1));
                out.push((entries[i].0.clone(), grow(entries[i].1)));
            }
            let json = Json::Object(out);
            proof {
                if let JsonView::Object(held) = json@ {
                    assert forall|i: int| 0 <= i < held.len() implies held[i] == below[i] by {
                        assert((out@[i].0@, out@[i].1@) == below[i]);
                    }
                    assert(held =~= below);
                }
            }
            json
        },
    }
}

/// Reads a JSON text; nothing where it is not one.
pub fn parse(text: &str) -> (json: Option<Json>)
    ensures
        json matches Some(j) ==> parsed(text@) == Some(j@),
        json is None ==> parsed(text@) is None,
{
    match read_value(text) {
        Ok(value) => Some(grow(&value)),
        Err(_) => None,
    }
}

/// Whether the keys of an object come in ascending order, hence each once.
pub open spec fn ascending(entries: Seq<(Seq<char>, JsonView)>) -> bool {
    forall|i: int|
        0 <= i < entries.len() - 1 ==> text::precedes(
            (#[trigger] entries[i]).0,
            entries[i + 1].0,
        )
}

/// A value made of strings, arrays and objects with ascending keys.
pub open spec fn writable(v: JsonView) -> bool
    decreases v,
{
    match v {
        JsonView::Text(_) => true,
        JsonView::Array(items) => forall|i: int|
            0 <= i < items.len() ==> writable(#[trigger] items[i]),
        JsonView::Object(entries) => ascending(entries) && forall|i: int|
            0 <= i < entries.len() ==> writable((#[trigger] entries[i]).1),
        _ => false,
    }
}

/// A value of at most `n` levels of arrays and objects.
pub open spec fn nested_within(v: JsonView, n: nat) -> bool
    decreases n,
{
    match v {
        JsonView::Array(items) => n > 0 && forall|i: int|
            0 <= i < items.len() ==> nested_within(#[trigger] items[i], (n - 1) as nat),
        JsonView::Object(entries) => n > 0 && forall|i: int|
            0 <= i < entries.len() ==> nested_within((#[trigger] entries[i]).1, (n - 1) as nat),
        _ => true,
    }
}

/// What the `Display` of `serde_json::Value` writes of a value made of strings,
/// arrays and objects.
pub uninterp spec fn written(v: JsonView) -> Seq<char>;

/// `serde_json::Value::String`. The contract claims that it holds the text.
#[verifier::external_body]
fn text_value(s: &str) -> (value: serde_json::Value)
    ensures
        contents(value) == JsonView::Text(s@),
{
    serde_json::Value::String(s.to_owned())
}

/// `serde_json::Value::Array`. The contract claims that it holds the items, in
/// order.
#[verifier::external_body]
fn array_value(items: Vec<serde_json::Value>) -> (value: serde_json::Value)
    ensures
        contents(value) == JsonView::Array(items@.map_values(|v: serde_json::Value| contents(v))),
{
    serde_json::Value::Array(items)
}

/// `serde_json::Value::Object`, of the `serde_json::Map` collected from entries.
/// The contract claims that entries with ascending keys keep their order.
#[verifier::external_body]
fn object_value(entries: Vec<(String, serde_json::Value)>) -> (value: serde_json::Value)
    requires
        ascending(entries@.map_values(|e: (String, serde_json::Value)| (e.0@, contents(e.1)))),
    ensures
        contents(value) == JsonView::Object(
            entries@.map_values(|e: (String, serde_json::Value)| (e.0@, contents(e.1))),
        ),
{
    serde_json::Value::Object(entries.into_iter().collect())
}

/// The `Display` of `serde_json::Value`. Beside naming what it writes, the
/// contract claims that it is one line, line breaks being escaped, and that
/// `serde_json::from_str` reads the same value back, up to a hundred levels deep.
#[verifier::external_body]
fn write_value(value: &serde_json::Value) -> (s: String)
    requires
        writable(contents(*value)),
    ensures
        s@ == written(contents(*value)),
        !s@.contains('\n'),
        nested_within(contents(*value), 100) ==> parsed(s@) == Some(contents(*value)),
{
    value.to_string()
}

/// A tree as a `serde_json::Value`.
fn build(json: &Json) -> (value: serde_json::Value)
    requires
        writable(json@),
    ensures
        contents(value) == json@,
    decreases json,
{
    match json {
        Json::Text(s) => text_value(s.as_str()),
        Json::Array(items) => {
            let ghost held = json@->Array_0;
            let mut out: Vec<serde_json::Value> = Vec::new();
            for i in 0..items.len()
                invariant
                    json@ == JsonView::Array(held),
                    writable(json@),
                    held.len() == items@.len(),
                    *json == Json::Array(*items),
                    forall|k: int| 0 <= k < held.len() ==> #[trigger] held[k] == items@[k]@,
                    out@.len() == i,
                    forall|k: int| 0 <= k < i ==> contents(#[trigger] out@[k]) == held[k],
            {
                assert(held[i as int] == items@[i as int]@);
                assert(json@->Array_0[i as int] == held[i as int]);
                assert(writable(held[i as int]));
                out.push(build(&items[i]));
            }
            assert(out@.map_values(|v: serde_json::Value| contents(v)) =~= held);
            array_value(out)
        },
        Json::Object(entries) => {
            let ghost held = json@->Object_0;
            let mut out: Vec<(String, serde_json::Value)> = Vec::new();
            for i in 0..entries.len()
                invariant
                    json@ == JsonView::Object(held),
                    writable(json@),
                    held.len() == entries@.len(),
                    *json == Json::Object(*entries),
                    forall|k: int|
                        0 <= k < held.len() ==> #[trigger] held[k] == (
                            entries@[k].0@,
                            entries@[k].1@,
                        ),
                    out@.len() == i,
                    forall|k: int|
                        0 <= k < i ==> ((#[trigger] out@[k]).0@, contents(out@[k].1)) == held[k],
            {
                assert(writable(held[i as int].1));
                out.push((entries[i].0.clone(), build(&entries[i].1)));
            }
            assert(out@.map_values(|e: (String, serde_json::Value)| (e.0@, contents(e.1)))
                =~= held);
            object_value(out)
        },
        // Nothing else is writable.
        _ => text_value(""),
    }
}

/// Writes a value made of strings, arrays and objects with ascending keys, on
/// one line.
pub fn render(json: &Json) -> (s: String)
    requires
        writable(json@),
    ensures
        s@ == written(json@),
        !s@.contains('\n'),
        nested_within(json@, 100) ==> parsed(s@) == Some(json@),
{
    let value = build(json);
    write_value(&value)
}

/// The value under a key, from the entry `i` on.
pub open spec fn entry_from(
    entries: Seq<(Seq<char>, JsonView)>,
    key: Seq<char>,
    i: int,
) -> Option<JsonView>
    decreases entries.len() - i,
{
    if i < 0 || i >= entries.len() {
        None
    } else if entries[i].0 == key {
        Some(entries[i].1)
    } else {
        entry_from(entries, key, i + 1)
    }
}

impl JsonView {
    /// The value an object holds under a key; nothing for anything else.
    pub open spec fn member(self, key: Seq<char>) -> Option<JsonView> {
        match self {
            JsonView::Object(entries) => entry_from(entries, key, 0),
            _ => None,
        }
    }

    /// The characters of a string; nothing for anything else.
    pub open spec fn string(self) -> Option<Seq<char>> {
        match self {
            JsonView::Text(s) => Some(s),
            _ => None,
        }
    }

    /// The items of an array; nothing for anything else.
    pub open spec fn items(self) -> Option<Seq<JsonView>> {
        match self {
            JsonView::Array(items) => Some(items),
            _ => None,
        }
    }

    /// The string an object holds under a key.
    pub open spec fn field(self, key: Seq<char>) -> Option<Seq<char>> {
        match self.member(key) {
            Some(v) => v.string(),
            None => None,
        }
    }

    /// The array an object holds under a key.
    pub open spec fn list(self, key: Seq<char>) -> Option<Seq<JsonView>> {
        match self.member(key) {
            Some(v) => v.items(),
            None => None,
        }
    }

    /// The signed integer an object holds under a key.
    pub open spec fn integer(self, key: Seq<char>) -> Option<i64> {
        match self.member(key) {
            Some(JsonView::Number { signed, .. }) => signed,
            _ => None,
        }
    }

    /// Whether an object holds `true` under a key.
    pub open spec fn flag(self, key: Seq<char>) -> bool {
        self.member(key) == Some(JsonView::Bool(true))
    }
}

/// The list an answer of the server holds under a key of its result.
pub open spec fn result_list(reply: Option<JsonView>, key: Seq<char>) -> Option<Seq<JsonView>> {
    match reply {
        Some(json) => match json.member("result"@) {
            Some(result) => result.list(key),
            None => None,
        },
        None => None,
    }
}

/// An optional value as plain data.
pub open spec fn json_view(json: Option<&Json>) -> Option<JsonView> {
    match json {
        Some(j) => Some(j@),
        None => None,
    }
}

impl Json {
    /// The value an object holds under a key.
    pub fn get(&self, key: &str) -> (value: Option<&Json>)
        ensures
            json_view(value) == self@.member(key@),
    {
        match self {
            Json::Object(entries) => {
                let ghost held = self@->Object_0;
                let mut i: usize = 0;
                while i < entries.len()
                    invariant
                        i <= entries@.len(),
                        self@ == JsonView::Object(held),
                        held.len() == entries@.len(),
                        forall|k: int|
                            0 <= k < held.len() ==> #[trigger] held[k] == (
                                entries@[k].0@,
                                entries@[k].1@,
                            ),
                        self@.member(key@) == entry_from(held, key@, i as int),
                    decreases entries@.len() - i,
                {
                    assert(held[i as int] == (entries@[i as int].0@, entries@[i as int].1@));
                    if text::same(entries[i].0.as_str(), key) {
                        return Some(&entries[i].1);
                    }
                    i = i + 1;
                }
                None
            },
            _ => None,
        }
    }

    /// The characters of a string.
    pub fn as_str(&self) -> (s: Option<&str>)
        ensures
            text::text_view(s) == self@.string(),
    {
        match self {
            Json::Text(s) => Some(s.as_str()),
            _ => None,
        }
    }

    /// The items of an array.
    pub fn as_array(&self) -> (items: Option<&[Json]>)
        ensures
            items is Some <==> self@.items() is Some,
            items matches Some(held) ==> self@.items() == Some(trees(held@)),
    {
        match self {
            Json::Array(items) => {
                assert(self@->Array_0 =~= trees(items@));
                Some(items.as_slice())
            },
            _ => None,
        }
    }

    /// The string an object holds under a key.
    pub fn str_field(&self, key: &str) -> (s: Option<&str>)
        ensures
            text::text_view(s) == self@.field(key@),
    {
        match self.get(key) {
            Some(v) => v.as_str(),
            None => None,
        }
    }

    /// The array an object holds under a key.
    pub fn array_field(&self, key: &str) -> (items: Option<&[Json]>)
        ensures
            items is Some <==> self@.list(key@) is Some,
            items matches Some(held) ==> self@.list(key@) == Some(trees(held@)),
    {
        match self.get(key) {
            Some(v) => v.as_array(),
            None => None,
        }
    }

    /// The list an answer of the server holds under a key of its result.
    pub fn result_array(&self, key: &str) -> (items: Option<&[Json]>)
        ensures
            items is Some <==> result_list(Some(self@), key@) is Some,
            items matches Some(held) ==> result_list(Some(self@), key@) == Some(trees(held@)),
    {
        match self.get("result") {
            Some(result) => result.array_field(key),
            None => None,
        }
    }

    /// The signed integer an object holds under a key.
    pub fn int_field(&self, key: &str) -> (n: Option<i64>)
        ensures
            n == self@.integer(key@),
    {
        match self.get(key) {
            Some(Json::Number { signed, .. }) => *signed,
            _ => None,
        }
    }

    /// Whether an object holds `true` under a key.
    pub fn is_set(&self, key: &str) -> (set: bool)
        ensures
            set == self@.flag(key@),
    {
        match self.get(key) {
            Some(Json::Bool(b)) => *b,
            _ => false,
        }
    }
}

/// An object gives under a key what its first entry of that name holds, and
/// nothing where it has none; anything else gives nothing.
pub proof fn objects_give_what_they_hold(value: JsonView, key: Seq<char>, i: int)
    ensures
        value matches JsonView::Object(entries) ==> {
            &&& 0 <= i < entries.len() && entries[i].0 == key && (forall|j: int|
                0 <= j < i ==> (#[trigger] entries[j]).0 != key) ==> value.member(key) == Some(
                entries[i].1,
            )
            &&& (forall|j: int| 0 <= j < entries.len() ==> (#[trigger] entries[j]).0 != key)
                ==> value.member(key) is None
        },
        !(value is Object) ==> value.member(key) is None,
        value.member(key) matches Some(JsonView::Text(s)) ==> value.field(key) == Some(s),
        value.member(key) is None ==> value.field(key) is None && value.list(key) is None,
        value.member(key) matches Some(JsonView::Array(a)) ==> value.list(key) == Some(a),
        value.flag(key) <==> value.member(key) == Some(JsonView::Bool(true)),
        value.member(key) matches Some(JsonView::Number { signed, .. }) ==> value.integer(key)
            == signed,
        value.member(key) is None ==> value.integer(key) is None,
{
    if let JsonView::Object(entries) = value {
        if 0 <= i < entries.len() && entries[i].0 == key && (forall|j: int|
            0 <= j < i ==> (#[trigger] entries[j]).0 != key) {
            lemma_entry_is(entries, key, 0, i);
        }
        if forall|j: int| 0 <= j < entries.len() ==> (#[trigger] entries[j]).0 != key {
            lemma_entry_is_none(entries, key, 0);
        }
    }
}

proof fn lemma_entry_is(entries: Seq<(Seq<char>, JsonView)>, key: Seq<char>, from: int, i: int)
    requires
        0 <= from <= i < entries.len(),
        entries[i].0 == key,
        forall|j: int| 0 <= j < i ==> (#[trigger] entries[j]).0 != key,
    ensures
        entry_from(entries, key, from) == Some(entries[i].1),
    decreases i - from,
{
    if from < i {
        assert(entries[from].0 != key);
        lemma_entry_is(entries, key, from + 1, i);
    }
}

proof fn lemma_entry_is_none(entries: Seq<(Seq<char>, JsonView)>, key: Seq<char>, from: int)
    requires
        0 <= from,
        forall|j: int| 0 <= j < entries.len() ==> (#[trigger] entries[j]).0 != key,
    ensures
        entry_from(entries, key, from) is None,
    decreases entries.len() - from,
{
    if from < entries.len() {
        lemma_entry_is_none(entries, key, from + 1);
    }
}

/// The list of an answer is what its result holds under the key.
pub proof fn answers_hold_their_lists_in_the_result(reply: JsonView, key: Seq<char>)
    ensures
        reply.member("result"@) matches Some(r) ==> result_list(Some(reply), key) == r.list(key),
        reply.member("result"@) is None ==> result_list(Some(reply), key) is None,
        result_list(None, key) is None,
{
}

} // verus!
