//! Which values are the same, which may be sent, and which items stand for them.

use vstd::prelude::*;

use crate::cbor::Cbor;
use crate::error::{ErrorModel, JsyncErrorKind};
use crate::json;
use crate::json::{Json, Number};
use crate::message::json_cbor;
use crate::producer::ProducerModel;
use crate::string_map;
use crate::text;

verus! {

/// Two values are the same just when they are of one kind and have the same content: the same truth
/// value, integer or text, the same bits of a float but for the sign of a zero, the same items one
/// by one, or the same keys with the same values. An integer and a float are never the same.
pub proof fn law_sameness_is_told_part_by_part(a: Json, b: Json)
    ensures
        json::same(a, b) <==> match (a, b) {
            (Json::Null, Json::Null) => true,
            (Json::Bool(x), Json::Bool(y)) => x == y,
            (Json::Number(Number::Integer(x)), Json::Number(Number::Integer(y))) => x == y,
            (Json::Number(Number::Float(x)), Json::Number(Number::Float(y))) => x == y || {
                &&& x == 0 || x == 0x8000_0000_0000_0000u64
                &&& y == 0 || y == 0x8000_0000_0000_0000u64
            },
            (Json::String(x), Json::String(y)) => x == y,
            (Json::Array(x), Json::Array(y)) => x.len() == y.len() && forall|i: int|
                0 <= i < x.len() ==> json::same(#[trigger] x[i], y[i]),
            (Json::Object(x), Json::Object(y)) => x.len() == y.len() && forall|i: int|
                0 <= i < x.len() ==> (#[trigger] x[i]).0 == y[i].0 && json::same(x[i].1, y[i].1),
            _ => false,
        },
{
    match (a, b) {
        (Json::Array(x), Json::Array(y)) => {
            json::lemma_same_arrays(x, y);
        },
        (Json::Object(x), Json::Object(y)) => {
            json::lemma_same_objects(x, y);
        },
        _ => {},
    }
}

/// A document without floats that are zero is the same as no other document.
pub proof fn law_sameness_without_zeros_is_equality(a: Json, b: Json)
    requires
        json::same(a, b),
        no_zero_floats(a),
    ensures
        a == b,
    decreases a,
{
    match (a, b) {
        (Json::Array(x), Json::Array(y)) => {
            json::lemma_same_arrays(x, y);
            assert forall|i: int| 0 <= i < x.len() implies x[i] == y[i] by {
                assert(json::same(x[i], y[i]));
                assert(no_zero_floats(x[i]));
                json::lemma_item_smaller(x, i);
                law_sameness_without_zeros_is_equality(x[i], y[i]);
            }
            assert(x =~= y);
        },
        (Json::Object(x), Json::Object(y)) => {
            json::lemma_same_objects(x, y);
            assert forall|i: int| 0 <= i < x.len() implies x[i] == y[i] by {
                assert(x[i].0 == y[i].0 && json::same(x[i].1, y[i].1));
                assert(no_zero_floats(x[i].1));
                json::lemma_entry_smaller(x, i);
                law_sameness_without_zeros_is_equality(x[i].1, y[i].1);
            }
            assert(x =~= y);
        },
        _ => {
            law_sameness_is_told_part_by_part(a, b);
        },
    }
}

/// Whether no float in a document is a zero.
pub open spec fn no_zero_floats(json: Json) -> bool
    decreases json,
{
    match json {
        Json::Number(Number::Float(bits)) => bits != 0 && bits != 0x8000_0000_0000_0000u64,
        Json::Array(items) => forall|i: int|
            0 <= i < items.len() ==> no_zero_floats(#[trigger] items[i]),
        Json::Object(entries) => forall|i: int|
            0 <= i < entries.len() ==> no_zero_floats((#[trigger] entries[i]).1),
        _ => true,
    }
}

/// A producer is up to date just when it has sent a document that is the same as its current one.
pub proof fn law_up_to_date_means_the_same_document(producer: ProducerModel)
    ensures
        producer.up_to_date() ==> producer.emitted is Some,
        producer.emitted matches Some(document) ==> (producer.up_to_date() <==> json::same(
            document,
            producer.current,
        )),
{
}

/// A float may be sent just when it is below 2^53 in size, whatever its sign.
pub proof fn law_floats_are_safe_by_size(bits: u64)
    ensures
        json_cbor::safe_number(Number::Float(bits)) <==> bits % 0x8000_0000_0000_0000u64
            < 0x4340_0000_0000_0000u64,
{
}

/// Whether a float may be sent does not depend on its sign, and a float that is no larger than one
/// that may be sent may be sent too.
pub proof fn law_smaller_floats_are_safe(a: u64, b: u64)
    requires
        a % 0x8000_0000_0000_0000u64 <= b % 0x8000_0000_0000_0000u64,
        json_cbor::safe_number(Number::Float(b)),
    ensures
        json_cbor::safe_number(Number::Float(a)),
{
}

/// An integer may be sent just when it is below 2^53 in size, whatever its sign.
pub proof fn law_integers_are_safe_by_size(n: i128)
    ensures
        json_cbor::safe_number(Number::Integer(n)) <==> -0x20_0000_0000_0000 < n
            < 0x20_0000_0000_0000,
{
}

/// A document may be sent just when all numbers in it may.
pub proof fn law_documents_are_safe_part_by_part(document: Json)
    ensures
        json_cbor::first_unsafe(document) is None <==> match document {
            Json::Number(number) => json_cbor::safe_number(number),
            Json::Array(items) => forall|i: int|
                0 <= i < items.len() ==> json_cbor::first_unsafe(#[trigger] items[i]) is None,
            Json::Object(entries) => forall|i: int|
                0 <= i < entries.len() ==> json_cbor::first_unsafe(
                    (#[trigger] entries[i]).1,
                ) is None,
            _ => true,
        },
{
    match document {
        Json::Array(items) => {
            if json_cbor::first_unsafe(document) is None {
                assert forall|i: int| 0 <= i < items.len() implies json_cbor::first_unsafe(
                    #[trigger] items[i],
                ) is None by {
                    json_cbor::lemma_safe_item(items, items.len(), i);
                }
            } else if (forall|i: int|
                0 <= i < items.len() ==> json_cbor::first_unsafe(#[trigger] items[i]) is None) {
                json_cbor::lemma_all_items_safe(items, items.len());
            }
        },
        Json::Object(entries) => {
            if json_cbor::first_unsafe(document) is None {
                assert forall|i: int| 0 <= i < entries.len() implies json_cbor::first_unsafe(
                    (#[trigger] entries[i]).1,
                ) is None by {
                    json_cbor::lemma_safe_entry(entries, entries.len(), i);
                }
            } else if (forall|i: int|
                0 <= i < entries.len() ==> json_cbor::first_unsafe(
                    (#[trigger] entries[i]).1,
                ) is None) {
                json_cbor::lemma_all_entries_safe(entries, entries.len());
            }
        },
        _ => {},
    }
}

/// The number that keeps a document from being sent is one that may not be sent, and it is the one
/// of the first part that may not be sent.
pub proof fn law_first_unsafe_number_is_the_first(document: Json)
    ensures
        json_cbor::first_unsafe(document) matches Some(number) ==> {
            &&& !json_cbor::safe_number(number)
            &&& match document {
                Json::Number(n) => n == number,
                Json::Array(items) => exists|i: int|
                    {
                        &&& 0 <= i < items.len()
                        &&& json_cbor::first_unsafe(#[trigger] items[i]) == Some(number)
                        &&& forall|j: int|
                            0 <= j < i ==> json_cbor::first_unsafe(#[trigger] items[j]) is None
                    },
                Json::Object(entries) => exists|i: int|
                    {
                        &&& 0 <= i < entries.len()
                        &&& json_cbor::first_unsafe((#[trigger] entries[i]).1) == Some(number)
                        &&& forall|j: int|
                            0 <= j < i ==> json_cbor::first_unsafe(
                                (#[trigger] entries[j]).1,
                            ) is None
                    },
                _ => false,
            }
        },
    decreases document, 1nat,
{
    if let Some(number) = json_cbor::first_unsafe(document) {
        match document {
            Json::Array(items) => {
                let i = lemma_first_item(items, items.len());
                json::lemma_item_smaller(items, i);
                law_first_unsafe_number_is_the_first(items[i]);
            },
            Json::Object(entries) => {
                let i = lemma_first_entry(entries, entries.len());
                json::lemma_entry_smaller(entries, i);
                law_first_unsafe_number_is_the_first(entries[i].1);
            },
            _ => {},
        }
    }
}

proof fn lemma_first_item(items: Seq<Json>, count: nat) -> (i: int)
    requires
        count <= items.len(),
        json_cbor::first_unsafe_item(items, count) is Some,
    ensures
        0 <= i < count,
        json_cbor::first_unsafe(items[i]) == json_cbor::first_unsafe_item(items, count),
        forall|j: int| 0 <= j < i ==> json_cbor::first_unsafe(#[trigger] items[j]) is None,
    decreases count,
{
    let before = (count - 1) as nat;
    if json_cbor::first_unsafe_item(items, before) is Some {
        lemma_first_item(items, before)
    } else {
        assert forall|j: int| 0 <= j < before implies json_cbor::first_unsafe(
            #[trigger] items[j],
        ) is None by {
            json_cbor::lemma_safe_item(items, before, j);
        }
        before as int
    }
}

proof fn lemma_first_entry(entries: Seq<(Seq<char>, Json)>, count: nat) -> (i: int)
    requires
        count <= entries.len(),
        json_cbor::first_unsafe_entry(entries, count) is Some,
    ensures
        0 <= i < count,
        json_cbor::first_unsafe(entries[i].1) == json_cbor::first_unsafe_entry(entries, count),
        forall|j: int| 0 <= j < i ==> json_cbor::first_unsafe((#[trigger] entries[j]).1) is None,
    decreases count,
{
    let before = (count - 1) as nat;
    if json_cbor::first_unsafe_entry(entries, before) is Some {
        lemma_first_entry(entries, before)
    } else {
        assert forall|j: int| 0 <= j < before implies json_cbor::first_unsafe(
            (#[trigger] entries[j]).1,
        ) is None by {
            json_cbor::lemma_safe_entry(entries, before, j);
        }
        before as int
    }
}

/// Whether reading an item fails because it is no JSON value that may be sent.
pub open spec fn refused(result: Result<Json, ErrorModel>) -> bool {
    result matches Err(e) && e.kind == JsyncErrorKind::InvalidJsonValue
}

/// The document for which a CBOR item stands: null, truth values, texts, integers and floats below
/// 2^53 stand for themselves, and an array for the array of what its items stand for. Byte strings,
/// tags and other items stand for nothing.
pub proof fn law_items_stand_for_documents(item: Cbor)
    requires
        item matches Cbor::Integer(n) ==> i128::MIN <= n <= i128::MAX,
    ensures
        ({
            let result = json_cbor::from_cbor(item);
            match item {
                Cbor::Null => result == Ok::<Json, ErrorModel>(Json::Null),
                Cbor::Bool(b) => result == Ok::<Json, ErrorModel>(Json::Bool(b)),
                Cbor::Text(s) => result == Ok::<Json, ErrorModel>(Json::String(s)),
                Cbor::Integer(n) => if -0x20_0000_0000_0000 < n < 0x20_0000_0000_0000 {
                    result == Ok::<Json, ErrorModel>(Json::Number(Number::Integer(n as i128)))
                } else {
                    refused(result)
                },
                Cbor::Float(bits) => if bits % 0x8000_0000_0000_0000u64
                    < 0x4340_0000_0000_0000u64 {
                    result == Ok::<Json, ErrorModel>(Json::Number(Number::Float(bits)))
                } else {
                    refused(result)
                },
                Cbor::Array(items) => match result {
                    Ok(Json::Array(values)) => values.len() == items.len() && forall|i: int|
                        0 <= i < items.len() ==> json_cbor::from_cbor(#[trigger] items[i]) == Ok::<
                            Json,
                            ErrorModel,
                        >(values[i]),
                    Ok(_) => false,
                    Err(e) => exists|i: int|
                        0 <= i < items.len() && json_cbor::from_cbor(#[trigger] items[i]) == Err::<
                            Json,
                            ErrorModel,
                        >(e),
                },
                Cbor::Dict(_) => result is Err || result->Ok_0 is Object,
                _ => refused(result),
            }
        }),
{
    if let Cbor::Array(items) = item {
        lemma_items(items, items.len());
    }
}

proof fn lemma_items(items: Seq<Cbor>, count: nat)
    requires
        count <= items.len(),
    ensures
        match json_cbor::from_cbor_items(items, count) {
            Ok(values) => values.len() == count && forall|i: int|
                0 <= i < count ==> json_cbor::from_cbor(#[trigger] items[i]) == Ok::<
                    Json,
                    ErrorModel,
                >(values[i]),
            Err(e) => exists|i: int|
                0 <= i < count && json_cbor::from_cbor(#[trigger] items[i]) == Err::<
                    Json,
                    ErrorModel,
                >(e),
        },
    decreases count,
{
    if count > 0 {
        lemma_items(items, (count - 1) as nat);
    }
}

/// Whether an entry of a map is the last one with its key.
pub open spec fn last_with_key(entries: Seq<(Cbor, Cbor)>, i: int) -> bool {
    &&& 0 <= i < entries.len()
    &&& forall|j: int| i < j < entries.len() ==> (#[trigger] entries[j]).0 != entries[i].0
}

/// A map stands for an object just when all its keys are texts and all its values stand for
/// documents. The object has each key once, with the value of its last entry, and no other key.
pub proof fn law_maps_stand_for_objects(entries: Seq<(Cbor, Cbor)>)
    ensures
        match json_cbor::from_cbor(Cbor::Dict(entries)) {
            Ok(Json::Object(properties)) => {
                &&& string_map::sorted(properties)
                &&& forall|i: int|
                    0 <= i < entries.len() ==> (#[trigger] entries[i]).0 is Text
                        && json_cbor::from_cbor(entries[i].1) is Ok
                &&& forall|i: int|
                    last_with_key(entries, i) ==> string_map::value_of(
                        properties,
                        (#[trigger] entries[i]).0->Text_0,
                    ) == Some(json_cbor::from_cbor(entries[i].1)->Ok_0)
                &&& forall|key: Seq<char>|
                    (#[trigger] string_map::value_of(properties, key)) is Some ==> exists|i: int|
                        0 <= i < entries.len() && (#[trigger] entries[i]).0 == Cbor::Text(key)
            },
            Ok(_) => false,
            Err(_) => exists|i: int|
                0 <= i < entries.len() && (!((#[trigger] entries[i]).0 is Text)
                    || json_cbor::from_cbor(entries[i].1) is Err),
        },
{
    let item = Cbor::Dict(entries);
    assert(item->Dict_0 == entries);
    lemma_entries(entries, entries.len());
    assert(entries.take(entries.len() as int) =~= entries);
}

proof fn lemma_entries(entries: Seq<(Cbor, Cbor)>, count: nat)
    requires
        count <= entries.len(),
    ensures
        match json_cbor::from_cbor_entries(entries, count) {
            Ok(properties) => {
                &&& string_map::sorted(properties)
                &&& forall|i: int|
                    0 <= i < count ==> (#[trigger] entries[i]).0 is Text && json_cbor::from_cbor(
                        entries[i].1,
                    ) is Ok
                &&& forall|i: int|
                    0 <= i < count && (forall|j: int|
                        i < j < count ==> (#[trigger] entries[j]).0 != entries[i].0)
                        ==> string_map::value_of(properties, (#[trigger] entries[i]).0->Text_0)
                        == Some(json_cbor::from_cbor(entries[i].1)->Ok_0)
                &&& forall|key: Seq<char>|
                    (#[trigger] string_map::value_of(properties, key)) is Some ==> exists|i: int|
                        0 <= i < count && (#[trigger] entries[i]).0 == Cbor::Text(key)
            },
            Err(_) => exists|i: int|
                0 <= i < count && (!((#[trigger] entries[i]).0 is Text) || json_cbor::from_cbor(
                    entries[i].1,
                ) is Err),
        },
    decreases count,
{
    if count == 0 {
        let none = Seq::<(Seq<char>, Json)>::empty();
        assert forall|key: Seq<char>| (#[trigger] string_map::value_of(none, key)) is None by {
            string_map::lemma_slot_range(none, key);
        }
    } else {
        let last = count - 1;
        lemma_entries(entries, last as nat);
        let entry = entries[last];
        if let Ok(before) = json_cbor::from_cbor_entries(entries, last as nat) {
            if let (Cbor::Text(key), Ok(value)) = (entry.0, json_cbor::from_cbor(entry.1)) {
                let properties = string_map::with_entry(before, key, value);
                string_map::lemma_put_value(before, key, value);
                assert(json_cbor::from_cbor_entries(entries, count) == Ok::<
                    Seq<(Seq<char>, Json)>,
                    ErrorModel,
                >(properties));
                assert forall|i: int|
                    0 <= i < count && (forall|j: int|
                        i < j < count ==> (#[trigger] entries[j]).0 != entries[i].0) implies string_map::value_of(
                    properties,
                    (#[trigger] entries[i]).0->Text_0,
                ) == Some(json_cbor::from_cbor(entries[i].1)->Ok_0) by {
                    if i < last {
                        assert(entries[last].0 != entries[i].0);
                        assert(entries[i].0 is Text);
                        assert(entries[i].0->Text_0 != key);
                    }
                }
                assert forall|k: Seq<char>|
                    (#[trigger] string_map::value_of(properties, k)) is Some implies exists|i: int|
                    0 <= i < count && (#[trigger] entries[i]).0 == Cbor::Text(k) by {
                    if k == key {
                        assert(entries[last].0 == Cbor::Text(k));
                    } else {
                        assert(string_map::value_of(before, k) is Some);
                    }
                }
            }
        }
    }
}

/// Whether a byte string comes before another one because of their bytes at a position: it ends
/// there, or has the smaller byte, and they are alike up to there.
pub open spec fn before_at(x: Seq<u8>, y: Seq<u8>, n: int) -> bool {
    &&& 0 <= n <= x.len()
    &&& n < y.len()
    &&& x.take(n) == y.take(n)
    &&& n == x.len() || x[n] < y[n]
}

/// Keys are ordered by their UTF-8 bytes: by the first byte in which they differ, and a key comes
/// before those that it begins.
pub proof fn law_keys_are_ordered_by_bytes(a: Seq<char>, b: Seq<char>)
    ensures
        text::key_lt(a, b) <==> exists|n: int| #[trigger]
            before_at(vstd::utf8::encode_utf8(a), vstd::utf8::encode_utf8(b), n),
{
    lemma_bytes_order(vstd::utf8::encode_utf8(a), vstd::utf8::encode_utf8(b));
}

proof fn lemma_bytes_order(x: Seq<u8>, y: Seq<u8>)
    ensures
        text::bytes_lt(x, y) <==> exists|n: int| #[trigger] before_at(x, y, n),
    decreases x.len(),
{
    if y.len() > 0 && x.len() > 0 && x[0] == y[0] {
        let p = x.drop_first();
        let q = y.drop_first();
        lemma_bytes_order(p, q);
        if text::bytes_lt(x, y) {
            let n = choose|n: int| #[trigger] before_at(p, q, n);
            assert(x.take(n + 1) =~= seq![x[0]] + p.take(n));
            assert(y.take(n + 1) =~= seq![y[0]] + q.take(n));
            assert(before_at(x, y, n + 1));
        }
        if exists|n: int| #[trigger] before_at(x, y, n) {
            let n = choose|n: int| #[trigger] before_at(x, y, n);
            assert(n > 0);
            assert(p.take(n - 1) =~= x.take(n).drop_first());
            assert(q.take(n - 1) =~= y.take(n).drop_first());
            assert(before_at(p, q, n - 1));
        }
    } else if y.len() > 0 {
        assert(x.take(0) =~= y.take(0));
        if x.len() == 0 || x[0] < y[0] {
            assert(before_at(x, y, 0));
        }
        if exists|n: int| #[trigger] before_at(x, y, n) {
            let n = choose|n: int| #[trigger] before_at(x, y, n);
            if n > 0 {
                assert(x.take(n)[0] == y.take(n)[0]);
            }
        }
    }
}

/// What is put into a map is found under its key, what is removed is not, and nothing else changes.
pub proof fn law_maps_hold_what_was_put<T>(
    entries: Seq<(Seq<char>, T)>,
    key: Seq<char>,
    value: T,
    other: Seq<char>,
)
    requires
        string_map::sorted(entries),
    ensures
        ({
            let put = string_map::with_entry(entries, key, value);
            let removed = string_map::without_key(entries, key);
            &&& string_map::sorted(put)
            &&& string_map::sorted(removed)
            &&& put.contains((key, value))
            &&& forall|v: T| removed.contains((key, v)) ==> false
            &&& other != key ==> string_map::value_of(put, other) == string_map::value_of(
                entries,
                other,
            )
            &&& other != key ==> string_map::value_of(removed, other) == string_map::value_of(
                entries,
                other,
            )
        }),
{
    let put = string_map::with_entry(entries, key, value);
    let removed = string_map::without_key(entries, key);
    string_map::lemma_put_value(entries, key, value);
    string_map::lemma_removed_value(entries, key);
    assert(string_map::value_of(put, key) == Some(value));
    string_map::lemma_slot_range(put, key);
    assert(put[string_map::slot(put, key)] == (key, value));
    assert forall|v: T| removed.contains((key, v)) implies false by {
        let i = choose|i: int| 0 <= i < removed.len() && removed[i] == (key, v);
        string_map::lemma_slot_of(removed, i);
        assert(string_map::value_of(removed, key) is Some);
    }
}

} // verus!
