//! JSON documents and their mathematical model.

use vstd::prelude::*;

use crate::string_map;
use crate::string_map::StringMap;
use crate::text;

verus! {

/// A JSON number: an integer, or a double-precision float given by its IEEE 754 bits.
#[derive(Debug, Clone, Copy)]
pub enum Number {
    /// A number written without fraction and exponent.
    Integer(i128),
    /// Any other number, as the bits of a double-precision float.
    Float(u64),
}

/// A JSON document.
#[derive(Debug)]
pub enum JsonValue {
    /// The literal `null`.
    Null,
    /// A truth value.
    Bool(bool),
    /// A number.
    Number(Number),
    /// A string.
    String(String),
    /// An array.
    Array(Vec<JsonValue>),
    /// An object, whose properties are held in key order.
    Object(StringMap<JsonValue>),
}

/// The mathematical model of a JSON document. The properties of an object stand in key order.
pub enum Json {
    /// The literal `null`.
    Null,
    /// A truth value.
    Bool(bool),
    /// A number.
    Number(Number),
    /// A string, as its Unicode scalar values.
    String(Seq<char>),
    /// An array.
    Array(Seq<Json>),
    /// An object.
    Object(Seq<(Seq<char>, Json)>),
}

/// The model of a document.
pub open spec fn json_model(value: JsonValue) -> Json
    decreases value,
{
    proof {
        if let JsonValue::Object(map) = value {
            assert forall|i: int| 0 <= i < map.value_seq().len() implies decreases_to!(
                value => #[trigger] map.value_seq()[i]) by {
                map.lemma_smaller(i);
            }
        }
    }
    match value {
        JsonValue::Null => Json::Null,
        JsonValue::Bool(b) => Json::Bool(b),
        JsonValue::Number(n) => Json::Number(n),
        JsonValue::String(s) => Json::String(s@),
        JsonValue::Array(items) => Json::Array(
            Seq::new(
                items@.len(),
                |i: int|
                    if 0 <= i < items@.len() {
                        json_model(items@[i])
                    } else {
                        Json::Null
                    },
            ),
        ),
        JsonValue::Object(map) => Json::Object(
            Seq::new(
                map.value_seq().len(),
                |i: int|
                    (
                        map.key_seq()[i],
                        if 0 <= i < map.value_seq().len() {
                            json_model(map.value_seq()[i])
                        } else {
                            Json::Null
                        },
                    ),
            ),
        ),
    }
}

impl View for JsonValue {
    type V = Json;

    open spec fn view(&self) -> Json {
        json_model(*self)
    }
}

/// The models of a sequence of documents.
pub open spec fn json_views(values: Seq<JsonValue>) -> Seq<Json> {
    Seq::new(values.len(), |i: int| values[i]@)
}

/// The model of an object's entries.
pub open spec fn entry_views(entries: Seq<(Seq<char>, JsonValue)>) -> Seq<(Seq<char>, Json)> {
    Seq::new(entries.len(), |i: int| (entries[i].0, entries[i].1@))
}

/// The view of an array is the sequence of its items' views.
pub broadcast proof fn lemma_array_view(items: Vec<JsonValue>)
    ensures
        #[trigger] JsonValue::Array(items)@ == Json::Array(json_views(items@)),
{
    assert(JsonValue::Array(items)@->Array_0 =~= json_views(items@));
}

/// The view of an object is made of its entries' views.
pub broadcast proof fn lemma_object_view(map: StringMap<JsonValue>)
    ensures
        #[trigger] JsonValue::Object(map)@ == Json::Object(entry_views(map.entries())),
{
    assert(JsonValue::Object(map)@->Object_0 =~= entry_views(map.entries()));
}

/// Putting a property into an object does so in the model.
pub proof fn lemma_entry_put(
    entries: Seq<(Seq<char>, JsonValue)>,
    key: Seq<char>,
    value: JsonValue,
)
    ensures
        entry_views(string_map::with_entry(entries, key, value)) == string_map::with_entry(
            entry_views(entries),
            key,
            value@,
        ),
{
    let views = entry_views(entries);
    assert(views.len() == entries.len());
    string_map::lemma_slot_keys(entries, views, key);
    string_map::lemma_slot_range(entries, key);
    assert(entry_views(string_map::with_entry(entries, key, value)) =~= string_map::with_entry(
        views,
        key,
        value@,
    ));
}

/// An object has a key when its model does, and the value under it is that of the model.
pub proof fn lemma_has_key(entries: Seq<(Seq<char>, JsonValue)>, key: Seq<char>)
    ensures
        string_map::has_key(entries, key) == string_map::has_key(entry_views(entries), key),
        string_map::has_key(entries, key) ==> string_map::lookup(entry_views(entries), key)
            == string_map::lookup(entries, key)@,
        string_map::slot(entries, key) == string_map::slot(entry_views(entries), key),
{
    let views = entry_views(entries);
    assert(views.len() == entries.len());
    string_map::lemma_slot_keys(entries, views, key);
    string_map::lemma_slot_range(entries, key);
}

/// Taking a property out of an object does so in the model.
pub proof fn lemma_entry_removed(entries: Seq<(Seq<char>, JsonValue)>, key: Seq<char>)
    ensures
        entry_views(string_map::without_key(entries, key)) == string_map::without_key(
            entry_views(entries),
            key,
        ),
{
    lemma_has_key(entries, key);
    string_map::lemma_slot_range(entries, key);
    assert(entry_views(string_map::without_key(entries, key)) =~= string_map::without_key(
        entry_views(entries),
        key,
    ));
}

/// An array is larger than its items.
pub proof fn lemma_item_smaller(items: Seq<Json>, i: int)
    requires
        0 <= i < items.len(),
    ensures
        decreases_to!(Json::Array(items) => items[i]),
{
    let array = Json::Array(items);
    assert(decreases_to!(array => array->Array_0));
    assert(decreases_to!(items => items[i]));
}

/// An object is larger than its values.
pub proof fn lemma_entry_smaller(entries: Seq<(Seq<char>, Json)>, i: int)
    requires
        0 <= i < entries.len(),
    ensures
        decreases_to!(Json::Object(entries) => entries[i].1),
{
    let object = Json::Object(entries);
    assert(decreases_to!(object => object->Object_0));
    assert(decreases_to!(entries => entries[i]));
    let entry = entries[i];
    assert(decreases_to!(entry => entry.1));
}

/// The bits of a negative zero.
pub const NEGATIVE_ZERO: u64 = 0x8000_0000_0000_0000;

/// A number up to the sign of a zero float, which JSON equality does not see.
pub open spec fn norm_number(number: Number) -> Number {
    match number {
        Number::Float(bits) => Number::Float(
            if bits == NEGATIVE_ZERO {
                0
            } else {
                bits
            },
        ),
        Number::Integer(n) => Number::Integer(n),
    }
}

/// A document up to the sign of its zero floats.
pub open spec fn norm(json: Json) -> Json
    decreases json,
{
    match json {
        Json::Number(n) => Json::Number(norm_number(n)),
        Json::Array(items) => Json::Array(
            Seq::new(
                items.len(),
                |i: int|
                    if 0 <= i < items.len() {
                        norm(items[i])
                    } else {
                        Json::Null
                    },
            ),
        ),
        Json::Object(entries) => Json::Object(
            Seq::new(
                entries.len(),
                |i: int|
                    if 0 <= i < entries.len() {
                        (entries[i].0, norm(entries[i].1))
                    } else {
                        (Seq::empty(), Json::Null)
                    },
            ),
        ),
        other => other,
    }
}

/// JSON equality: the documents are alike up to the sign of zero floats.
pub open spec fn same(a: Json, b: Json) -> bool {
    norm(a) == norm(b)
}

/// Whether the properties of every object stand in strictly increasing key order.
pub open spec fn valid(json: Json) -> bool
    decreases json,
{
    match json {
        Json::Array(items) => forall|i: int| 0 <= i < items.len() ==> valid(#[trigger] items[i]),
        Json::Object(entries) => {
            &&& string_map::sorted(entries)
            &&& forall|i: int| 0 <= i < entries.len() ==> valid((#[trigger] entries[i]).1)
        },
        _ => true,
    }
}

/// Whether the lengths of all strings and arrays are machine numbers, as those of every document
/// in memory are.
pub open spec fn in_memory(json: Json) -> bool
    decreases json,
{
    match json {
        Json::String(s) => s.len() <= usize::MAX,
        Json::Array(items) => {
            &&& items.len() <= usize::MAX
            &&& forall|i: int| 0 <= i < items.len() ==> in_memory(#[trigger] items[i])
        },
        Json::Object(entries) => forall|i: int|
            0 <= i < entries.len() ==> in_memory((#[trigger] entries[i]).1),
        _ => true,
    }
}

/// Arrays are the same when they are so item by item.
pub proof fn lemma_same_arrays(a: Seq<Json>, b: Seq<Json>)
    ensures
        same(Json::Array(a), Json::Array(b)) <==> {
            &&& a.len() == b.len()
            &&& forall|i: int| 0 <= i < a.len() ==> same(#[trigger] a[i], b[i])
        },
{
    let x = norm(Json::Array(a))->Array_0;
    let y = norm(Json::Array(b))->Array_0;
    if same(Json::Array(a), Json::Array(b)) {
        assert(x == y);
        assert(x.len() == a.len() && y.len() == b.len());
        assert forall|i: int| 0 <= i < a.len() implies same(#[trigger] a[i], b[i]) by {
            assert(x[i] == norm(a[i]));
            assert(y[i] == norm(b[i]));
        }
    }
    if a.len() == b.len() && (forall|i: int| 0 <= i < a.len() ==> same(#[trigger] a[i], b[i])) {
        assert forall|i: int| 0 <= i < a.len() implies x[i] == y[i] by {
            assert(same(a[i], b[i]));
        }
        assert(x =~= y);
    }
}

/// Objects are the same when they have the same keys with the same values.
pub proof fn lemma_same_objects(a: Seq<(Seq<char>, Json)>, b: Seq<(Seq<char>, Json)>)
    ensures
        same(Json::Object(a), Json::Object(b)) <==> {
            &&& a.len() == b.len()
            &&& forall|i: int|
                0 <= i < a.len() ==> (#[trigger] a[i]).0 == b[i].0 && same(a[i].1, b[i].1)
        },
{
    let x = norm(Json::Object(a))->Object_0;
    let y = norm(Json::Object(b))->Object_0;
    if same(Json::Object(a), Json::Object(b)) {
        assert(x == y);
        assert(x.len() == a.len() && y.len() == b.len());
        assert forall|i: int| 0 <= i < a.len() implies (#[trigger] a[i]).0 == b[i].0 && same(
            a[i].1,
            b[i].1,
        ) by {
            assert(x[i] == (a[i].0, norm(a[i].1)));
            assert(y[i] == (b[i].0, norm(b[i].1)));
        }
    }
    if a.len() == b.len() && (forall|i: int|
        0 <= i < a.len() ==> (#[trigger] a[i]).0 == b[i].0 && same(a[i].1, b[i].1)) {
        assert forall|i: int| 0 <= i < a.len() implies x[i] == y[i] by {
            assert(a[i].0 == b[i].0 && same(a[i].1, b[i].1));
        }
        assert(x =~= y);
    }
}

/// Tells whether two numbers are equal as JSON.
pub fn same_number(a: Number, b: Number) -> (equal: bool)
    ensures
        equal == (norm_number(a) == norm_number(b)),
{
    match (a, b) {
        (Number::Integer(x), Number::Integer(y)) => x == y,
        (Number::Float(x), Number::Float(y)) => {
            x == y || ((x == 0 || x == NEGATIVE_ZERO) && (y == 0 || y == NEGATIVE_ZERO))
        },
        _ => false,
    }
}

/// Tells whether two documents are equal as JSON.
pub fn same_value(a: &JsonValue, b: &JsonValue) -> (equal: bool)
    ensures
        equal == same(a@, b@),
    decreases a@,
{
    broadcast use {lemma_array_view, lemma_object_view};

    match (a, b) {
        (JsonValue::Null, JsonValue::Null) => true,
        (JsonValue::Bool(x), JsonValue::Bool(y)) => *x == *y,
        (JsonValue::Number(x), JsonValue::Number(y)) => same_number(*x, *y),
        (JsonValue::String(x), JsonValue::String(y)) => *x == *y,
        (JsonValue::Array(x), JsonValue::Array(y)) => {
            proof {
                lemma_same_arrays(json_views(x@), json_views(y@));
            }
            if x.len() != y.len() {
                return false;
            }
            let mut i: usize = 0;
            while i < x.len()
                invariant
                    i <= x@.len(),
                    x@.len() == y@.len(),
                    a@ == Json::Array(json_views(x@)),
                    same(a@, b@) <==> {
                        forall|j: int|
                            0 <= j < x@.len() ==> same(
                                #[trigger] json_views(x@)[j],
                                json_views(y@)[j],
                            )
                    },
                    forall|j: int|
                        0 <= j < i ==> same(#[trigger] json_views(x@)[j], json_views(y@)[j]),
                decreases x@.len() - i,
            {
                assert(json_views(x@)[i as int] == x@[i as int]@);
                proof {
                    lemma_item_smaller(json_views(x@), i as int);
                }
                if !same_value(&x[i], &y[i]) {
                    return false;
                }
                i = i + 1;
            }
            true
        },
        (JsonValue::Object(x), JsonValue::Object(y)) => {
            let ghost p = entry_views(x.entries());
            let ghost q = entry_views(y.entries());
            proof {
                lemma_same_objects(p, q);
            }
            if x.len() != y.len() {
                return false;
            }
            let mut i: usize = 0;
            while i < x.len()
                invariant
                    i <= p.len(),
                    p.len() == q.len(),
                    p == entry_views(x.entries()),
                    q == entry_views(y.entries()),
                    a@ == Json::Object(p),
                    same(a@, b@) <==> {
                        forall|j: int|
                            0 <= j < p.len() ==> (#[trigger] p[j]).0 == q[j].0 && same(
                                p[j].1,
                                q[j].1,
                            )
                    },
                    forall|j: int|
                        0 <= j < i ==> (#[trigger] p[j]).0 == q[j].0 && same(p[j].1, q[j].1),
                decreases p.len() - i,
            {
                assert(p[i as int].1 == x.entries()[i as int].1@);
                proof {
                    lemma_entry_smaller(p, i as int);
                }
                if *x.key_at(i) != *y.key_at(i) || !same_value(x.value_at(i), y.value_at(i)) {
                    return false;
                }
                i = i + 1;
            }
            true
        },
        _ => false,
    }
}

impl PartialEq for JsonValue {
    fn eq(&self, other: &Self) -> (equal: bool) {
        same_value(self, other)
    }
}

impl vstd::std_specs::cmp::PartialEqSpecImpl for JsonValue {
    open spec fn obeys_eq_spec() -> bool {
        true
    }

    open spec fn eq_spec(&self, other: &Self) -> bool {
        same(self@, other@)
    }
}

/// Copies a document. Every document in memory has its properties in key order.
pub fn copy_value(value: &JsonValue) -> (copy: JsonValue)
    ensures
        copy@ == value@,
        valid(value@),
        in_memory(value@),
    decreases value@,
{
    broadcast use {lemma_array_view, lemma_object_view};

    match value {
        JsonValue::Null => JsonValue::Null,
        JsonValue::Bool(b) => JsonValue::Bool(*b),
        JsonValue::Number(n) => JsonValue::Number(*n),
        JsonValue::String(s) => {
            let _length: usize = s.as_str().as_bytes().len();
            proof {
                text::lemma_utf8_no_shorter(s@);
            }
            JsonValue::String(s.clone())
        },
        JsonValue::Array(items) => {
            let mut copies: Vec<JsonValue> = Vec::new();
            let mut i: usize = 0;
            while i < items.len()
                invariant
                    i <= items@.len(),
                    value@ == Json::Array(json_views(items@)),
                    json_views(copies@) == json_views(items@).take(i as int),
                    forall|j: int|
                        0 <= j < i ==> valid(#[trigger] json_views(items@)[j]) && in_memory(
                            json_views(items@)[j],
                        ),
                decreases items@.len() - i,
            {
                assert(json_views(items@)[i as int] == items@[i as int]@);
                proof {
                    lemma_item_smaller(json_views(items@), i as int);
                }
                let ghost before = json_views(copies@);
                let copy = copy_value(&items[i]);
                copies.push(copy);
                i = i + 1;
                assert(json_views(copies@) =~= before.push(copy@));
                assert(json_views(copies@) =~= json_views(items@).take(i as int));
            }
            assert(json_views(items@).take(i as int) =~= json_views(items@));
            assert(value@->Array_0 == json_views(items@));
            JsonValue::Array(copies)
        },
        JsonValue::Object(map) => {
            let ghost p = entry_views(map.entries());
            let mut copy: StringMap<JsonValue> = StringMap::new();
            let count: usize = map.len();
            let mut i: usize = 0;
            assert(entry_views(copy.entries()) =~= p.take(0));
            while i < count
                invariant
                    i <= count == p.len(),
                    p == entry_views(map.entries()),
                    string_map::sorted(map.entries()),
                    value@ == Json::Object(p),
                    entry_views(copy.entries()) == p.take(i as int),
                    forall|j: int|
                        0 <= j < i ==> valid((#[trigger] p[j]).1) && in_memory(p[j].1),
                decreases count - i,
            {
                assert(p[i as int].1 == map.entries()[i as int].1@);
                proof {
                    lemma_entry_smaller(p, i as int);
                }
                let item = copy_value(map.value_at(i));
                let key = map.key_at(i).clone();
                let ghost before = copy.entries();
                proof {
                    assert(entry_views(before).len() == before.len());
                    assert forall|j: int| 0 <= j < before.len() implies text::key_lt(
                        #[trigger] before[j].0,
                        key@,
                    ) by {
                        assert(entry_views(before)[j] == p.take(i as int)[j]);
                        assert(p[j].0 == map.entries()[j].0);
                        assert(map.entries()[i as int].0 == key@);
                    }
                }
                copy.push_last(key, item);
                i = i + 1;
                assert(entry_views(copy.entries()) =~= entry_views(before).push((key@, item@)));
                assert(entry_views(copy.entries()) =~= p.take(i as int));
            }
            assert(p.take(i as int) =~= p);
            assert(value@->Object_0 == p);
            assert(string_map::sorted(p)) by {
                assert(string_map::sorted(map.entries()));
            }
            JsonValue::Object(copy)
        },
    }
}

impl Clone for JsonValue {
    fn clone(&self) -> (copy: Self)
        ensures
            copy@ == self@,
            valid(self@),
            in_memory(self@),
    {
        copy_value(self)
    }
}

} // verus!
