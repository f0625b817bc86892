//! JSON documents as CBOR items.

use vstd::prelude::*;

use crate::cbor;
use crate::cbor::{Cbor, CborValue};
use crate::error;
use crate::error::{ErrorModel, JsyncError, JsyncErrorKind};
use crate::json;
use crate::json::{Json, JsonValue, Number};
use crate::string_map;
use crate::string_map::StringMap;
use crate::text;

verus! {

/// The largest integer that every implementation of JSON represents exactly.
pub const MAX_SAFE_JSON_INTEGER: i128 = 9_007_199_254_740_991;

/// The bits of the largest float below 2^53, from which on every float is an integer beyond the
/// safe ones.
pub const MAX_SAFE_FLOAT_BITS: u64 = 0x433f_ffff_ffff_ffff;

/// The sign bit of a float.
pub const FLOAT_SIGN: u64 = 0x8000_0000_0000_0000;

/// Whether a number may stand in a message.
pub open spec fn safe_number(number: Number) -> bool {
    match number {
        Number::Integer(n) => -MAX_SAFE_JSON_INTEGER <= n <= MAX_SAFE_JSON_INTEGER,
        Number::Float(bits) => bits % FLOAT_SIGN <= MAX_SAFE_FLOAT_BITS,
    }
}

/// The numeral by which an error names a number.
pub open spec fn numeral(number: Number) -> Seq<char> {
    match number {
        Number::Integer(n) => text::decimal(n as int),
        Number::Float(bits) => cbor::float_numeral(bits),
    }
}

/// The error for a number that may not stand in a message.
pub open spec fn unsafe_number_error(number: Number) -> ErrorModel {
    error::failure(
        JsyncErrorKind::InvalidJsonValue,
        "The JSON integer is outside the cross-language safe integer range."@,
    ).with_metadata("minimum"@, text::decimal(-MAX_SAFE_JSON_INTEGER)).with_metadata(
        "maximum"@,
        text::decimal(MAX_SAFE_JSON_INTEGER as int),
    ).with_metadata("value"@, numeral(number))
}

/// The first number of a document, in document order, that may not stand in a message.
pub open spec fn first_unsafe(json: Json) -> Option<Number>
    decreases json, 0nat,
{
    match json {
        Json::Number(number) => if safe_number(number) {
            None
        } else {
            Some(number)
        },
        Json::Array(items) => first_unsafe_item(items, items.len()),
        Json::Object(entries) => first_unsafe_entry(entries, entries.len()),
        _ => None,
    }
}

/// The first such number of the first `count` items of an array.
pub open spec fn first_unsafe_item(items: Seq<Json>, count: nat) -> Option<Number>
    decreases items, count,
{
    if count == 0 || count > items.len() {
        None
    } else {
        match first_unsafe_item(items, (count - 1) as nat) {
            Some(number) => Some(number),
            None => first_unsafe(items[count - 1]),
        }
    }
}

/// The first such number of the first `count` properties of an object.
pub open spec fn first_unsafe_entry(entries: Seq<(Seq<char>, Json)>, count: nat) -> Option<Number>
    decreases entries, count,
{
    if count == 0 || count > entries.len() {
        None
    } else {
        let entry = entries[count - 1];
        proof {
            assert(decreases_to!(entries => entries[count - 1]));
            assert(decreases_to!(entry => entry.1));
        }
        match first_unsafe_entry(entries, (count - 1) as nat) {
            Some(number) => Some(number),
            None => first_unsafe(entry.1),
        }
    }
}

/// The CBOR item of a document.
pub open spec fn to_cbor(json: Json) -> Cbor
    decreases json,
{
    match json {
        Json::Null => Cbor::Null,
        Json::Bool(b) => Cbor::Bool(b),
        Json::Number(Number::Integer(n)) => Cbor::Integer(n as int),
        Json::Number(Number::Float(bits)) => Cbor::Float(bits),
        Json::String(s) => Cbor::Text(s),
        Json::Array(items) => Cbor::Array(
            Seq::new(
                items.len(),
                |i: int|
                    if 0 <= i < items.len() {
                        to_cbor(items[i])
                    } else {
                        Cbor::Null
                    },
            ),
        ),
        Json::Object(entries) => Cbor::Dict(
            Seq::new(
                entries.len(),
                |i: int|
                    (
                        Cbor::Text(entries[i].0),
                        if 0 <= i < entries.len() {
                            to_cbor(entries[i].1)
                        } else {
                            Cbor::Null
                        },
                    ),
            ),
        ),
    }
}

/// The CBOR items of a sequence of documents.
pub open spec fn cbors(items: Seq<Json>) -> Seq<Cbor> {
    Seq::new(items.len(), |i: int| to_cbor(items[i]))
}

/// The CBOR map entries of an object's properties.
pub open spec fn cbor_entries(entries: Seq<(Seq<char>, Json)>) -> Seq<(Cbor, Cbor)> {
    Seq::new(entries.len(), |i: int| (Cbor::Text(entries[i].0), to_cbor(entries[i].1)))
}

/// An array becomes an array.
pub broadcast proof fn lemma_array_cbor(items: Seq<Json>)
    ensures
        #[trigger] to_cbor(Json::Array(items)) == Cbor::Array(cbors(items)),
{
    assert(to_cbor(Json::Array(items))->Array_0 =~= cbors(items));
}

/// An object becomes a map.
pub broadcast proof fn lemma_object_cbor(entries: Seq<(Seq<char>, Json)>)
    ensures
        #[trigger] to_cbor(Json::Object(entries)) == Cbor::Dict(cbor_entries(entries)),
{
    assert(to_cbor(Json::Object(entries))->Dict_0 =~= cbor_entries(entries));
}

/// An error for an item that is no JSON value.
pub open spec fn not_json(message: Seq<char>) -> ErrorModel {
    error::failure(JsyncErrorKind::InvalidJsonValue, message)
}

/// The document that a CBOR item stands for, or the error for an item that stands for none.
pub open spec fn from_cbor(item: Cbor) -> Result<Json, ErrorModel>
    decreases item, 0nat,
{
    match item {
        Cbor::Null => Ok(Json::Null),
        Cbor::Bool(b) => Ok(Json::Bool(b)),
        Cbor::Integer(n) => {
            let number = Number::Integer(n as i128);
            if safe_number(number) {
                Ok(Json::Number(number))
            } else {
                Err(unsafe_number_error(number))
            }
        },
        Cbor::Float(bits) => {
            let number = Number::Float(bits);
            if !cbor::is_finite(bits) {
                Err(not_json("A non-finite float is not allowed in JSON."@))
            } else if safe_number(number) {
                Ok(Json::Number(number))
            } else {
                Err(unsafe_number_error(number))
            }
        },
        Cbor::Text(s) => Ok(Json::String(s)),
        Cbor::Array(items) => match from_cbor_items(items, items.len()) {
            Ok(values) => Ok(Json::Array(values)),
            Err(e) => Err(e),
        },
        Cbor::Dict(entries) => match from_cbor_entries(entries, entries.len()) {
            Ok(properties) => Ok(Json::Object(properties)),
            Err(e) => Err(e),
        },
        Cbor::Bytes(_) => Err(not_json("CBOR byte strings are not allowed in JSON."@)),
        Cbor::Tag(_, _) => Err(not_json("CBOR tags are not allowed in JSON."@)),
        Cbor::Other => Err(not_json("This CBOR value type is not allowed in JSON."@)),
    }
}

/// The documents that the first `count` items of an array stand for, or the first error.
pub open spec fn from_cbor_items(items: Seq<Cbor>, count: nat) -> Result<Seq<Json>, ErrorModel>
    decreases items, count,
{
    if count == 0 || count > items.len() {
        Ok(Seq::empty())
    } else {
        match from_cbor_items(items, (count - 1) as nat) {
            Ok(values) => match from_cbor(items[count - 1]) {
                Ok(value) => Ok(values.push(value)),
                Err(e) => Err(e),
            },
            Err(e) => Err(e),
        }
    }
}

/// The properties that the first `count` entries of a map stand for, or the first error. Of two
/// entries with the same key the later one counts.
pub open spec fn from_cbor_entries(entries: Seq<(Cbor, Cbor)>, count: nat) -> Result<
    Seq<(Seq<char>, Json)>,
    ErrorModel,
>
    decreases entries, count,
{
    if count == 0 || count > entries.len() {
        Ok(Seq::empty())
    } else {
        let entry = entries[count - 1];
        proof {
            assert(decreases_to!(entries => entries[count - 1]));
            assert(decreases_to!(entry => entry.1));
        }
        match from_cbor_entries(entries, (count - 1) as nat) {
            Ok(properties) => match entry.0 {
                Cbor::Text(key) => match from_cbor(entry.1) {
                    Ok(value) => Ok(string_map::with_entry(properties, key, value)),
                    Err(e) => Err(e),
                },
                _ => Err(not_json("JSON object keys must be strings."@)),
            },
            Err(e) => Err(e),
        }
    }
}

fn number_range_error(numeral: &str) -> (error: JsyncError)
    ensures
        error@ == error::failure(
            JsyncErrorKind::InvalidJsonValue,
            "The JSON integer is outside the cross-language safe integer range."@,
        ).with_metadata("minimum"@, text::decimal(-MAX_SAFE_JSON_INTEGER)).with_metadata(
            "maximum"@,
            text::decimal(MAX_SAFE_JSON_INTEGER as int),
        ).with_metadata("value"@, numeral@),
{
    JsyncError::new(
        JsyncErrorKind::InvalidJsonValue,
        "The JSON integer is outside the cross-language safe integer range.",
    ).with_metadata("minimum", text::decimal_text(-MAX_SAFE_JSON_INTEGER).as_str()).with_metadata(
        "maximum",
        text::decimal_text(MAX_SAFE_JSON_INTEGER).as_str(),
    ).with_metadata("value", numeral)
}

/// Checks that an integer may stand in a message.
pub fn validate_safe_json_integer(value: i128) -> (result: Result<(), JsyncError>)
    ensures
        result is Ok == safe_number(Number::Integer(value)),
        result matches Err(e) ==> e@ == unsafe_number_error(Number::Integer(value)),
{
    if -MAX_SAFE_JSON_INTEGER <= value && value <= MAX_SAFE_JSON_INTEGER {
        Ok(())
    } else {
        Err(number_range_error(text::decimal_text(value).as_str()))
    }
}

/// Checks that a float, given by its bits, is no integer beyond the safe ones. An infinity or a NaN
/// is no integer and passes: whether a float is finite is for the caller to ask.
pub fn validate_safe_json_float(bits: u64) -> (result: Result<(), JsyncError>)
    ensures
        result is Ok == (!cbor::is_finite(bits) || safe_number(Number::Float(bits))),
        result matches Err(e) ==> e@ == unsafe_number_error(Number::Float(bits)),
{
    let magnitude: u64 = bits % FLOAT_SIGN;
    if magnitude <= MAX_SAFE_FLOAT_BITS || magnitude >= 0x7ff0_0000_0000_0000 {
        Ok(())
    } else {
        Err(number_range_error(cbor::float_text(bits).as_str()))
    }
}

/// Checks that a number may stand in a message.
pub fn validate_safe_json_number(number: Number) -> (result: Result<(), JsyncError>)
    ensures
        result is Ok == safe_number(number),
        result matches Err(e) ==> e@ == unsafe_number_error(number),
{
    match number {
        Number::Integer(n) => validate_safe_json_integer(n),
        Number::Float(bits) => if bits % FLOAT_SIGN < 0x7ff0_0000_0000_0000 {
            validate_safe_json_float(bits)
        } else {
            Err(number_range_error(cbor::float_text(bits).as_str()))
        },
    }
}

/// Converts a JSON number into a CBOR item.
pub fn number_to_cbor(number: Number) -> (result: Result<CborValue, JsyncError>)
    ensures
        match result {
            Ok(item) => safe_number(number) && item@ == to_cbor(Json::Number(number)),
            Err(e) => !safe_number(number) && e@ == unsafe_number_error(number),
        },
{
    match validate_safe_json_number(number) {
        Ok(_) => match number {
            Number::Integer(n) => Ok(CborValue::Integer(n)),
            Number::Float(bits) => Ok(CborValue::Float(bits)),
        },
        Err(e) => Err(e),
    }
}

/// Converts a document into a CBOR item.
pub fn json_to_cbor(value: &JsonValue) -> (result: Result<CborValue, JsyncError>)
    ensures
        match result {
            Ok(item) => first_unsafe(value@) is None && item@ == to_cbor(value@),
            Err(e) => first_unsafe(value@) is Some && e@ == unsafe_number_error(
                first_unsafe(value@)->0,
            ),
        },
    decreases value@,
{
    broadcast use {
        json::lemma_array_view,
        json::lemma_object_view,
        cbor::lemma_cbor_array_view,
        cbor::lemma_cbor_map_view,
        lemma_array_cbor,
        lemma_object_cbor,
    };

    match value {
        JsonValue::Null => Ok(CborValue::Null),
        JsonValue::Bool(b) => Ok(CborValue::Bool(*b)),
        JsonValue::Number(number) => number_to_cbor(*number),
        JsonValue::String(s) => Ok(CborValue::Text(s.clone())),
        JsonValue::Array(values) => {
            let ghost items = json::json_views(values@);
            let mut encoded: Vec<CborValue> = Vec::new();
            let mut i: usize = 0;
            assert(cbor::cbor_views(encoded@) =~= cbors(items).take(0));
            while i < values.len()
                invariant
                    i <= values@.len(),
                    items == json::json_views(values@),
                    value@ == Json::Array(items),
                    first_unsafe_item(items, i as nat) is None,
                    cbor::cbor_views(encoded@) == cbors(items).take(i as int),
                decreases values@.len() - i,
            {
                proof {
                    json::lemma_item_smaller(items, i as int);
                    assert(items[i as int] == values@[i as int]@);
                }
                match json_to_cbor(&values[i]) {
                    Ok(item) => {
                        let ghost before = cbor::cbor_views(encoded@);
                        encoded.push(item);
                        i = i + 1;
                        assert(cbor::cbor_views(encoded@) =~= before.push(item@));
                        assert(cbor::cbor_views(encoded@) =~= cbors(items).take(i as int));
                    },
                    Err(e) => {
                        proof {
                            lemma_first_unsafe_item(items, i as nat + 1);
                        }
                        return Err(e);
                    },
                }
            }
            assert(cbors(items).take(i as int) =~= cbors(items));
            Ok(CborValue::Array(encoded))
        },
        JsonValue::Object(object) => {
            let ghost entries = json::entry_views(object.entries());
            let count: usize = object.len();
            let mut encoded: Vec<(CborValue, CborValue)> = Vec::new();
            let mut i: usize = 0;
            assert(cbor::pair_views(encoded@) =~= cbor_entries(entries).take(0));
            while i < count
                invariant
                    i <= count == entries.len(),
                    entries == json::entry_views(object.entries()),
                    value@ == Json::Object(entries),
                    first_unsafe_entry(entries, i as nat) is None,
                    cbor::pair_views(encoded@) == cbor_entries(entries).take(i as int),
                decreases count - i,
            {
                proof {
                    json::lemma_entry_smaller(entries, i as int);
                    assert(entries[i as int].1 == object.entries()[i as int].1@);
                }
                match json_to_cbor(object.value_at(i)) {
                    Ok(item) => {
                        let ghost before = cbor::pair_views(encoded@);
                        let key = CborValue::Text(object.key_at(i).clone());
                        encoded.push((key, item));
                        i = i + 1;
                        assert(cbor::pair_views(encoded@) =~= before.push((key@, item@)));
                        assert(cbor::pair_views(encoded@) =~= cbor_entries(entries).take(i as int));
                    },
                    Err(e) => {
                        proof {
                            lemma_first_unsafe_entry(entries, i as nat + 1);
                        }
                        return Err(e);
                    },
                }
            }
            assert(cbor_entries(entries).take(i as int) =~= cbor_entries(entries));
            Ok(CborValue::Dict(encoded))
        },
    }
}

/// The first such number of the first items is that of all items.
pub proof fn lemma_first_unsafe_item(items: Seq<Json>, count: nat)
    requires
        count <= items.len(),
        first_unsafe_item(items, count) is Some,
    ensures
        first_unsafe_item(items, items.len()) == first_unsafe_item(items, count),
    decreases items.len() - count,
{
    if count < items.len() {
        lemma_first_unsafe_item(items, count + 1);
    }
}

/// The first such number of the first properties is that of all properties.
pub proof fn lemma_first_unsafe_entry(entries: Seq<(Seq<char>, Json)>, count: nat)
    requires
        count <= entries.len(),
        first_unsafe_entry(entries, count) is Some,
    ensures
        first_unsafe_entry(entries, entries.len()) == first_unsafe_entry(entries, count),
    decreases entries.len() - count,
{
    if count < entries.len() {
        lemma_first_unsafe_entry(entries, count + 1);
    }
}

/// Converts a CBOR item into a document.
pub fn to_json(value: CborValue) -> (result: Result<JsonValue, JsyncError>)
    ensures
        match result {
            Ok(document) => from_cbor(value@) == Ok::<Json, ErrorModel>(document@),
            Err(e) => from_cbor(value@) == Err::<Json, ErrorModel>(e@),
        },
    decreases value@,
{
    broadcast use {
        json::lemma_array_view,
        json::lemma_object_view,
        cbor::lemma_cbor_array_view,
        cbor::lemma_cbor_map_view,
    };

    match value {
        CborValue::Null => Ok(JsonValue::Null),
        CborValue::Bool(b) => Ok(JsonValue::Bool(b)),
        CborValue::Integer(n) => match validate_safe_json_integer(n) {
            Ok(_) => Ok(JsonValue::Number(Number::Integer(n))),
            Err(e) => Err(e),
        },
        CborValue::Float(bits) => if bits % 0x8000_0000_0000_0000 >= 0x7ff0_0000_0000_0000 {
            Err(
                JsyncError::new(
                    JsyncErrorKind::InvalidJsonValue,
                    "A non-finite float is not allowed in JSON.",
                ),
            )
        } else {
            match validate_safe_json_float(bits) {
                Ok(_) => Ok(JsonValue::Number(Number::Float(bits))),
                Err(e) => Err(e),
            }
        },
        CborValue::Text(s) => Ok(JsonValue::String(s)),
        CborValue::Array(values) => match to_json_values(values) {
            Ok(documents) => Ok(JsonValue::Array(documents)),
            Err(e) => Err(e),
        },
        CborValue::Dict(pairs) => {
            let ghost entries = cbor::pair_views(pairs@);
            let mut object: StringMap<JsonValue> = StringMap::new();
            assert(json::entry_views(object.entries()) =~= Seq::empty());
            for pair in iter: pairs
                invariant
                    iter.seq() == pairs@,
                    entries == cbor::pair_views(pairs@),
                    value@ == Cbor::Dict(entries),
                    from_cbor_entries(entries, iter.index() as nat) == Ok::<
                        Seq<(Seq<char>, Json)>,
                        ErrorModel,
                    >(json::entry_views(object.entries())),
            {
                let ghost at = iter.index() as int;
                proof {
                    cbor::lemma_cbor_pair_smaller(entries, at);
                    assert(entries[at] == (pairs@[at].0@, pairs@[at].1@));
                }
                match pair.0 {
                    CborValue::Text(key) => {
                        match to_json(pair.1) {
                            Ok(document) => {
                                proof {
                                    json::lemma_entry_put(object.entries(), key@, document);
                                }
                                object.insert(key, document);
                            },
                            Err(e) => {
                                proof {
                                    lemma_entries_error(entries, at as nat + 1);
                                }
                                return Err(e);
                            },
                        }
                    },
                    _ => {
                        proof {
                            lemma_entries_error(entries, at as nat + 1);
                        }
                        return Err(
                            JsyncError::new(
                                JsyncErrorKind::InvalidJsonValue,
                                "JSON object keys must be strings.",
                            ),
                        );
                    },
                }
            }
            Ok(JsonValue::Object(object))
        },
        CborValue::Bytes(_) => Err(
            JsyncError::new(
                JsyncErrorKind::InvalidJsonValue,
                "CBOR byte strings are not allowed in JSON.",
            ),
        ),
        CborValue::Tag(_, _) => Err(
            JsyncError::new(
                JsyncErrorKind::InvalidJsonValue,
                "CBOR tags are not allowed in JSON.",
            ),
        ),
        CborValue::Other => Err(
            JsyncError::new(
                JsyncErrorKind::InvalidJsonValue,
                "This CBOR value type is not allowed in JSON.",
            ),
        ),
    }
}

/// Converts the items of a CBOR array into documents.
pub fn to_json_values(values: Vec<CborValue>) -> (result: Result<Vec<JsonValue>, JsyncError>)
    ensures
        match result {
            Ok(documents) => from_cbor_items(cbor::cbor_views(values@), values@.len()) == Ok::<
                Seq<Json>,
                ErrorModel,
            >(json::json_views(documents@)),
            Err(e) => from_cbor_items(cbor::cbor_views(values@), values@.len()) == Err::<
                Seq<Json>,
                ErrorModel,
            >(e@),
        },
    decreases cbor::cbor_views(values@),
{
    let ghost items = cbor::cbor_views(values@);
    let mut documents: Vec<JsonValue> = Vec::new();
    assert(json::json_views(documents@) =~= Seq::empty());
    for item in iter: values
        invariant
            iter.seq() == values@,
            items == cbor::cbor_views(values@),
            from_cbor_items(items, iter.index() as nat) == Ok::<Seq<Json>, ErrorModel>(
                json::json_views(documents@),
            ),
    {
        let ghost at = iter.index() as int;
        assert(items[at] == values@[at]@);
        match to_json(item) {
            Ok(document) => {
                let ghost before = json::json_views(documents@);
                documents.push(document);
                assert(json::json_views(documents@) =~= before.push(document@));
            },
            Err(e) => {
                proof {
                    lemma_items_error(items, at as nat + 1);
                }
                return Err(e);
            },
        }
    }
    Ok(documents)
}

proof fn lemma_items_error(items: Seq<Cbor>, count: nat)
    requires
        count <= items.len(),
        from_cbor_items(items, count) is Err,
    ensures
        from_cbor_items(items, items.len()) == from_cbor_items(items, count),
    decreases items.len() - count,
{
    if count < items.len() {
        lemma_items_error(items, count + 1);
    }
}

proof fn lemma_entries_error(entries: Seq<(Cbor, Cbor)>, count: nat)
    requires
        count <= entries.len(),
        from_cbor_entries(entries, count) is Err,
    ensures
        from_cbor_entries(entries, entries.len()) == from_cbor_entries(entries, count),
    decreases entries.len() - count,
{
    if count < entries.len() {
        lemma_entries_error(entries, count + 1);
    }
}

/// Reading back what was written: a document whose numbers may stand in a message is what its
/// CBOR item stands for.
pub proof fn law_json_round_trip(document: Json)
    requires
        json::valid(document),
        first_unsafe(document) is None,
    ensures
        from_cbor(to_cbor(document)) == Ok::<Json, ErrorModel>(document),
    decreases document, 0nat,
{
    broadcast use {lemma_array_cbor, lemma_object_cbor};

    match document {
        Json::Number(Number::Float(bits)) => {
            assert(cbor::is_finite(bits));
        },
        Json::Array(items) => {
            lemma_items_round_trip(items, items.len());
            assert(items.take(items.len() as int) =~= items);
        },
        Json::Object(entries) => {
            lemma_entries_round_trip(entries, entries.len());
            assert(entries.take(entries.len() as int) =~= entries);
        },
        _ => {},
    }
}

/// Whether a document can be held in memory, and its numbers are safe.
pub open spec fn sound(json: Json) -> bool {
    json::valid(json) && json::in_memory(json) && first_unsafe(json) is None
}

/// The items of a safe array are safe.
pub proof fn lemma_safe_item(items: Seq<Json>, count: nat, i: int)
    requires
        0 <= i < count <= items.len(),
        first_unsafe_item(items, count) is None,
    ensures
        first_unsafe(items[i]) is None,
    decreases count,
{
    if i < count - 1 {
        lemma_safe_item(items, (count - 1) as nat, i);
    }
}

/// The values of a safe object are safe.
pub proof fn lemma_safe_entry(entries: Seq<(Seq<char>, Json)>, count: nat, i: int)
    requires
        0 <= i < count <= entries.len(),
        first_unsafe_entry(entries, count) is None,
    ensures
        first_unsafe(entries[i].1) is None,
    decreases count,
{
    if i < count - 1 {
        lemma_safe_entry(entries, (count - 1) as nat, i);
    }
}

/// An array of safe items is safe.
pub proof fn lemma_all_items_safe(items: Seq<Json>, count: nat)
    requires
        count <= items.len(),
        forall|i: int| 0 <= i < count ==> first_unsafe(#[trigger] items[i]) is None,
    ensures
        first_unsafe_item(items, count) is None,
    decreases count,
{
    if count > 0 {
        lemma_all_items_safe(items, (count - 1) as nat);
        assert(first_unsafe(items[count - 1]) is None);
    }
}

/// An object of safe values is safe.
pub proof fn lemma_all_entries_safe(entries: Seq<(Seq<char>, Json)>, count: nat)
    requires
        count <= entries.len(),
        forall|i: int| 0 <= i < count ==> first_unsafe((#[trigger] entries[i]).1) is None,
    ensures
        first_unsafe_entry(entries, count) is None,
    decreases count,
{
    if count > 0 {
        lemma_all_entries_safe(entries, (count - 1) as nat);
        assert(first_unsafe(entries[count - 1].1) is None);
    }
}

proof fn lemma_items_round_trip(items: Seq<Json>, count: nat)
    requires
        count <= items.len(),
        json::valid(Json::Array(items)),
        first_unsafe_item(items, items.len()) is None,
    ensures
        from_cbor_items(cbors(items), count) == Ok::<Seq<Json>, ErrorModel>(
            items.take(count as int),
        ),
    decreases items, count,
{
    if count > 0 {
        lemma_items_round_trip(items, (count - 1) as nat);
        let array = Json::Array(items);
        assert(json::valid(array->Array_0[count - 1]));
        lemma_safe_item(items, items.len(), count - 1);
        law_json_round_trip(items[count - 1]);
        assert(cbors(items)[count - 1] == to_cbor(items[count - 1]));
        assert(items.take(count - 1).push(items[count - 1]) =~= items.take(count as int));
    } else {
        assert(items.take(0) =~= Seq::empty());
    }
}

proof fn lemma_entries_round_trip(entries: Seq<(Seq<char>, Json)>, count: nat)
    requires
        count <= entries.len(),
        json::valid(Json::Object(entries)),
        first_unsafe_entry(entries, entries.len()) is None,
    ensures
        from_cbor_entries(cbor_entries(entries), count) == Ok::<Seq<(Seq<char>, Json)>, ErrorModel>(
            entries.take(count as int),
        ),
    decreases entries, count,
{
    if count > 0 {
        lemma_entries_round_trip(entries, (count - 1) as nat);
        let object = Json::Object(entries);
        let entry = entries[count - 1];
        assert(json::valid((object->Object_0[count - 1]).1));
        assert(decreases_to!(entries => entries[count - 1]));
        assert(decreases_to!(entry => entry.1));
        lemma_safe_entry(entries, entries.len(), count - 1);
        law_json_round_trip(entry.1);
        assert(cbor_entries(entries)[count - 1] == (Cbor::Text(entry.0), to_cbor(entry.1)));
        let before = entries.take(count - 1);
        assert forall|i: int| 0 <= i < before.len() implies text::key_lt(
            #[trigger] before[i].0,
            entry.0,
        ) by {
            assert(before[i] == object->Object_0[i]);
        }
        string_map::lemma_slot_is(before, entry.0, before.len() as int);
        assert(before.insert(before.len() as int, entry) =~= entries.take(count as int));
    } else {
        assert(entries.take(0) =~= Seq::empty());
    }
}

/// Every decoded document is well formed, and all its numbers may stand in a message.
pub proof fn law_decoded_documents_are_safe(item: Cbor)
    ensures
        from_cbor(item) matches Ok(document) ==> json::valid(document) && first_unsafe(
            document,
        ) is None,
    decreases item, 0nat,
{
    match item {
        Cbor::Array(items) => {
            lemma_decoded_items_safe(items, items.len());
            if let Ok(values) = from_cbor_items(items, items.len()) {
                lemma_all_items_safe(values, values.len());
            }
        },
        Cbor::Dict(entries) => {
            lemma_decoded_entries_safe(entries, entries.len());
            if let Ok(properties) = from_cbor_entries(entries, entries.len()) {
                lemma_all_entries_safe(properties, properties.len());
            }
        },
        _ => {},
    }
}

/// Every document decoded from an array's items is well formed and safe.
pub proof fn lemma_decoded_items_safe(items: Seq<Cbor>, count: nat)
    requires
        count <= items.len(),
    ensures
        from_cbor_items(items, count) matches Ok(values) ==> {
            &&& values.len() == count
            &&& forall|i: int|
                0 <= i < values.len() ==> json::valid(#[trigger] values[i]) && first_unsafe(
                    values[i],
                ) is None
        },
    decreases items, count,
{
    if count > 0 {
        lemma_decoded_items_safe(items, (count - 1) as nat);
        law_decoded_documents_are_safe(items[count - 1]);
    }
}

proof fn lemma_decoded_entries_safe(entries: Seq<(Cbor, Cbor)>, count: nat)
    requires
        count <= entries.len(),
    ensures
        from_cbor_entries(entries, count) matches Ok(properties) ==> {
            &&& string_map::sorted(properties)
            &&& forall|i: int|
                0 <= i < properties.len() ==> json::valid((#[trigger] properties[i]).1)
                    && first_unsafe(properties[i].1) is None
        },
    decreases entries, count,
{
    if count > 0 {
        lemma_decoded_entries_safe(entries, (count - 1) as nat);
        let entry = entries[count - 1];
        assert(decreases_to!(entries => entries[count - 1]));
        assert(decreases_to!(entry => entry.1));
        law_decoded_documents_are_safe(entry.1);
        if let Ok(before) = from_cbor_entries(entries, (count - 1) as nat) {
            if let Cbor::Text(key) = entry.0 {
                if let Ok(value) = from_cbor(entry.1) {
                    let properties = string_map::with_entry(before, key, value);
                    string_map::lemma_with_entry_sorted(before, key, value);
                    assert forall|i: int| 0 <= i < properties.len() implies json::valid(
                        (#[trigger] properties[i]).1,
                    ) && first_unsafe(properties[i].1) is None by {
                        string_map::lemma_with_entry_entry(before, key, value, i);
                        if properties[i] != (key, value) {
                            let j = before.index_of(properties[i]);
                            assert(before[j] == properties[i]);
                        }
                    }
                }
            }
        }
    }
}

} // verus!
