//! Digests by which equal values are found.

use vstd::prelude::*;

use crate::error::JsyncError;
use crate::json;
use crate::json::{Json, JsonValue, Number};
use crate::message::json_cbor;
use crate::text;

verus! {

/// The eight bytes of a number, most significant first.
pub open spec fn be_bytes(n: u64) -> Seq<u8> {
    seq![
        (n / 0x0100_0000_0000_0000 % 256) as u8,
        (n / 0x0001_0000_0000_0000 % 256) as u8,
        (n / 0x0000_0100_0000_0000 % 256) as u8,
        (n / 0x0000_0001_0000_0000 % 256) as u8,
        (n / 0x0000_0000_0100_0000 % 256) as u8,
        (n / 0x0000_0000_0001_0000 % 256) as u8,
        (n / 0x0000_0000_0000_0100 % 256) as u8,
        (n % 256) as u8,
    ]
}

/// Bytes behind their number.
pub open spec fn sized(bytes: Seq<u8>) -> Seq<u8> {
    be_bytes(bytes.len() as u64) + bytes
}

/// The bytes of an integer.
pub open spec fn integer_bytes(n: int) -> Seq<u8> {
    seq![0x49u8] + sized(vstd::utf8::encode_utf8(text::decimal(n)))
}

/// The number of bits by which the mantissa of a float, given by its magnitude bits, is to be
/// shifted right.
pub open spec fn float_shift(magnitude: u64) -> int {
    1075 - magnitude / 0x10_0000_0000_0000
}

/// The mantissa of a normal float, given by its magnitude bits.
pub open spec fn float_mantissa(magnitude: u64) -> nat {
    (0x10_0000_0000_0000 + magnitude % 0x10_0000_0000_0000) as nat
}

/// The integer that a float below 2^53 equals, if it equals one.
pub open spec fn float_integer(bits: u64) -> Option<int> {
    let magnitude = bits % json_cbor::FLOAT_SIGN;
    let shift = float_shift(magnitude);
    if magnitude == 0 {
        Some(0)
    } else if 0 <= shift <= 52 && float_mantissa(magnitude) % vstd::arithmetic::power2::pow2(
        shift as nat,
    ) == 0 {
        let whole = (float_mantissa(magnitude) / vstd::arithmetic::power2::pow2(
            shift as nat,
        )) as int;
        if bits >= json_cbor::FLOAT_SIGN {
            Some(-whole)
        } else {
            Some(whole)
        }
    } else {
        None
    }
}

/// The canonical bytes of a value: equal values have the same.
pub open spec fn canonical(value: Json) -> Seq<u8>
    decreases value, 0nat,
{
    match value {
        Json::Null => seq![0x4eu8],
        Json::Bool(false) => seq![0x42u8, 0x30u8],
        Json::Bool(true) => seq![0x42u8, 0x31u8],
        Json::Number(Number::Integer(n)) => integer_bytes(n as int),
        Json::Number(Number::Float(bits)) => match float_integer(bits) {
            Some(n) => integer_bytes(n),
            None => seq![0x46u8] + be_bytes(bits),
        },
        Json::String(s) => seq![0x53u8] + sized(vstd::utf8::encode_utf8(s)),
        Json::Array(items) => seq![0x41u8] + be_bytes(items.len() as u64) + canonical_items(
            items,
            items.len(),
        ),
        Json::Object(entries) => seq![0x4fu8] + be_bytes(entries.len() as u64)
            + canonical_entries(entries, entries.len()),
    }
}

/// The canonical bytes of the first `count` items of an array.
pub open spec fn canonical_items(items: Seq<Json>, count: nat) -> Seq<u8>
    decreases items, count,
{
    if count == 0 || count > items.len() {
        Seq::empty()
    } else {
        canonical_items(items, (count - 1) as nat) + canonical(items[count - 1])
    }
}

/// The canonical bytes of the first `count` properties of an object.
pub open spec fn canonical_entries(entries: Seq<(Seq<char>, Json)>, count: nat) -> Seq<u8>
    decreases entries, count,
{
    if count == 0 || count > entries.len() {
        Seq::empty()
    } else {
        let entry = entries[count - 1];
        proof {
            assert(decreases_to!(entries => entries[count - 1]));
            assert(decreases_to!(entry => entry.1));
        }
        canonical_entries(entries, (count - 1) as nat) + (seq![0x4bu8] + sized(
            vstd::utf8::encode_utf8(entry.0),
        )) + canonical(entry.1)
    }
}

/// The BLAKE3 hash of some bytes.
pub uninterp spec fn blake3_hash(bytes: Seq<u8>) -> Seq<u8>;

/// Hashes bytes with `blake3::hash`, whose result is a function of the bytes alone.
#[verifier::external_body]
fn hash_bytes(bytes: &[u8]) -> (hash: [u8; 32])
    ensures
        hash@ == blake3_hash(bytes@),
{
    blake3::hash(bytes).into()
}

/// The digest of a value.
pub open spec fn digest(value: Json) -> Seq<u8> {
    blake3_hash(canonical(value))
}

/// A value digest.
pub type ValueDigest = [u8; 32];

fn push_be_bytes(bytes: &mut Vec<u8>, n: u64)
    ensures
        final(bytes)@ == old(bytes)@ + be_bytes(n),
{
    bytes.push((n / 0x0100_0000_0000_0000 % 256) as u8);
    bytes.push((n / 0x0001_0000_0000_0000 % 256) as u8);
    bytes.push((n / 0x0000_0100_0000_0000 % 256) as u8);
    bytes.push((n / 0x0000_0001_0000_0000 % 256) as u8);
    bytes.push((n / 0x0000_0000_0100_0000 % 256) as u8);
    bytes.push((n / 0x0000_0000_0001_0000 % 256) as u8);
    bytes.push((n / 0x0000_0000_0000_0100 % 256) as u8);
    bytes.push((n % 256) as u8);
    assert(bytes@ =~= old(bytes)@ + be_bytes(n));
}

fn push_sized(bytes: &mut Vec<u8>, more: &[u8])
    ensures
        final(bytes)@ == old(bytes)@ + sized(more@),
{
    push_be_bytes(bytes, more.len() as u64);
    bytes.extend_from_slice(more);
    assert(bytes@ =~= old(bytes)@ + sized(more@));
}

fn push_integer(bytes: &mut Vec<u8>, n: i128)
    ensures
        final(bytes)@ == old(bytes)@ + integer_bytes(n as int),
{
    bytes.push(0x49);
    let numeral: String = text::decimal_text(n);
    push_sized(bytes, numeral.as_str().as_bytes());
    assert(bytes@ =~= old(bytes)@ + integer_bytes(n as int));
}

fn power_of_two(exponent: u64) -> (power: u64)
    requires
        exponent <= 52,
    ensures
        power == vstd::arithmetic::power2::pow2(exponent as nat),
        power > 0,
{
    let mut power: u64 = 1;
    let mut i: u64 = 0;
    proof {
        vstd::arithmetic::power2::lemma2_to64();
        vstd::arithmetic::power2::lemma_pow2_adds(26, 26);
    }
    while i < exponent
        invariant
            i <= exponent <= 52,
            power == vstd::arithmetic::power2::pow2(i as nat),
            0 < power <= 0x10_0000_0000_0000,
            vstd::arithmetic::power2::pow2(52) == 0x10_0000_0000_0000,
        decreases exponent - i,
    {
        proof {
            vstd::arithmetic::power2::lemma_pow2_unfold(i as nat + 1);
            if i + 1 < 52 {
                vstd::arithmetic::power2::lemma_pow2_strictly_increases(i as nat + 1, 52);
            }
        }
        power = power * 2;
        i = i + 1;
    }
    power
}

/// Finds the integer that a safe float equals.
fn integer_of_float(bits: u64) -> (found: Option<i128>)
    requires
        json_cbor::safe_number(Number::Float(bits)),
    ensures
        match found {
            Some(n) => float_integer(bits) == Some(n as int),
            None => float_integer(bits) is None,
        },
{
    let magnitude: u64 = bits % json_cbor::FLOAT_SIGN;
    if magnitude == 0 {
        return Some(0);
    }
    let exponent: u64 = magnitude / 0x10_0000_0000_0000;
    assert(exponent <= 1075);
    let shift: u64 = 1075 - exponent;
    if shift > 52 {
        return None;
    }
    let mantissa: u64 = 0x10_0000_0000_0000 + magnitude % 0x10_0000_0000_0000;
    let power: u64 = power_of_two(shift);
    if mantissa % power != 0 {
        return None;
    }
    let whole: i128 = (mantissa / power) as i128;
    if bits >= json_cbor::FLOAT_SIGN {
        Some(-whole)
    } else {
        Some(whole)
    }
}

/// Appends the canonical bytes of a number.
fn push_number(bytes: &mut Vec<u8>, number: Number)
    requires
        json_cbor::safe_number(number),
    ensures
        final(bytes)@ == old(bytes)@ + canonical(Json::Number(number)),
{
    match number {
        Number::Integer(n) => push_integer(bytes, n),
        Number::Float(bits) => match integer_of_float(bits) {
            Some(n) => push_integer(bytes, n),
            None => {
                bytes.push(0x46);
                push_be_bytes(bytes, bits);
                assert(bytes@ =~= old(bytes)@ + canonical(Json::Number(number)));
            },
        },
    }
}

/// Appends the canonical bytes of a value.
fn push_canonical(bytes: &mut Vec<u8>, value: &JsonValue) -> (result: Result<(), JsyncError>)
    ensures
        match result {
            Ok(_) => {
                &&& json_cbor::first_unsafe(value@) is None
                &&& final(bytes)@ == old(bytes)@ + canonical(value@)
            },
            Err(e) => {
                &&& json_cbor::first_unsafe(value@) is Some
                &&& e@ == json_cbor::unsafe_number_error(json_cbor::first_unsafe(value@)->0)
            },
        },
    decreases value@,
{
    broadcast use {json::lemma_array_view, json::lemma_object_view};

    let ghost before = bytes@;
    match value {
        JsonValue::Null => {
            bytes.push(0x4e);
            assert(bytes@ =~= before + canonical(value@));
            Ok(())
        },
        JsonValue::Bool(b) => {
            bytes.push(0x42);
            bytes.push(
                if *b {
                    0x31
                } else {
                    0x30
                },
            );
            assert(bytes@ =~= before + canonical(value@));
            Ok(())
        },
        JsonValue::Number(number) => match json_cbor::validate_safe_json_number(*number) {
            Ok(_) => {
                push_number(bytes, *number);
                Ok(())
            },
            Err(e) => Err(e),
        },
        JsonValue::String(s) => {
            bytes.push(0x53);
            push_sized(bytes, s.as_str().as_bytes());
            assert(bytes@ =~= before + canonical(value@));
            Ok(())
        },
        JsonValue::Array(values) => {
            let ghost items = json::json_views(values@);
            bytes.push(0x41);
            push_be_bytes(bytes, values.len() as u64);
            let ghost start = bytes@;
            let mut i: usize = 0;
            assert(start =~= start + canonical_items(items, 0));
            while i < values.len()
                invariant
                    i <= values@.len(),
                    items == json::json_views(values@),
                    value@ == Json::Array(items),
                    json_cbor::first_unsafe_item(items, i as nat) is None,
                    bytes@ == start + canonical_items(items, i as nat),
                decreases values@.len() - i,
            {
                proof {
                    json::lemma_item_smaller(items, i as int);
                    assert(items[i as int] == values@[i as int]@);
                }
                if let Err(e) = push_canonical(bytes, &values[i]) {
                    proof {
                        json_cbor::lemma_first_unsafe_item(items, i as nat + 1);
                    }
                    return Err(e);
                }
                i = i + 1;
                assert(bytes@ =~= start + canonical_items(items, i as nat));
            }
            assert(items.len() == values@.len());
            assert(bytes@ =~= before + canonical(value@));
            Ok(())
        },
        JsonValue::Object(object) => {
            let ghost entries = json::entry_views(object.entries());
            let count: usize = object.len();
            bytes.push(0x4f);
            push_be_bytes(bytes, count as u64);
            let ghost start = bytes@;
            let mut i: usize = 0;
            assert(start =~= start + canonical_entries(entries, 0));
            while i < count
                invariant
                    i <= count == entries.len(),
                    entries == json::entry_views(object.entries()),
                    value@ == Json::Object(entries),
                    json_cbor::first_unsafe_entry(entries, i as nat) is None,
                    bytes@ == start + canonical_entries(entries, i as nat),
                decreases count - i,
            {
                proof {
                    json::lemma_entry_smaller(entries, i as int);
                    assert(entries[i as int].1 == object.entries()[i as int].1@);
                }
                bytes.push(0x4b);
                push_sized(bytes, object.key_at(i).as_str().as_bytes());
                if let Err(e) = push_canonical(bytes, object.value_at(i)) {
                    proof {
                        json_cbor::lemma_first_unsafe_entry(entries, i as nat + 1);
                    }
                    return Err(e);
                }
                i = i + 1;
                assert(bytes@ =~= start + canonical_entries(entries, i as nat));
            }
            assert(bytes@ =~= before + canonical(value@));
            Ok(())
        },
    }
}

/// Computes the digest of a value.
pub fn digest_value(value: &JsonValue) -> (result: Result<ValueDigest, JsyncError>)
    ensures
        match result {
            Ok(d) => json_cbor::first_unsafe(value@) is None && d@ == digest(value@),
            Err(e) => {
                &&& json_cbor::first_unsafe(value@) is Some
                &&& e@ == json_cbor::unsafe_number_error(json_cbor::first_unsafe(value@)->0)
            },
        },
{
    let mut bytes: Vec<u8> = Vec::new();
    match push_canonical(&mut bytes, value) {
        Ok(_) => {
            assert(bytes@ =~= canonical(value@));
            Ok(hash_bytes(bytes.as_slice()))
        },
        Err(e) => Err(e),
    }
}

/// Tells whether two digests are equal.
pub fn same_digest(a: &ValueDigest, b: &ValueDigest) -> (same: bool)
    ensures
        same == (a@ == b@),
{
    let mut i: usize = 0;
    while i < 32
        invariant
            i <= 32,
            forall|j: int| 0 <= j < i ==> a@[j] == b@[j],
        decreases 32 - i,
    {
        if a[i] != b[i] {
            return false;
        }
        i = i + 1;
    }
    assert(a@ =~= b@);
    true
}

/// Equal values have equal digests.
pub proof fn law_equal_values_have_equal_digests(a: Json, b: Json)
    requires
        json::same(a, b),
    ensures
        digest(a) == digest(b),
{
    lemma_same_canonical(a, b);
}

/// Equal values have the same canonical bytes.
pub proof fn lemma_same_canonical(a: Json, b: Json)
    requires
        json::same(a, b),
    ensures
        canonical(a) == canonical(b),
    decreases a, 0nat,
{
    match (a, b) {
        (Json::Array(x), Json::Array(y)) => {
            json::lemma_same_arrays(x, y);
            lemma_same_canonical_items(x, y, x.len());
        },
        (Json::Object(x), Json::Object(y)) => {
            json::lemma_same_objects(x, y);
            lemma_same_canonical_entries(x, y, x.len());
        },
        (Json::Number(x), Json::Number(y)) => {
            assert(json::norm_number(x) == json::norm_number(y));
        },
        _ => {},
    }
}

proof fn lemma_same_canonical_items(a: Seq<Json>, b: Seq<Json>, count: nat)
    requires
        count <= a.len() == b.len(),
        forall|i: int| 0 <= i < a.len() ==> json::same(#[trigger] a[i], b[i]),
    ensures
        canonical_items(a, count) == canonical_items(b, count),
    decreases a, count,
{
    if count > 0 {
        lemma_same_canonical_items(a, b, (count - 1) as nat);
        lemma_same_canonical(a[count - 1], b[count - 1]);
    }
}

proof fn lemma_same_canonical_entries(
    a: Seq<(Seq<char>, Json)>,
    b: Seq<(Seq<char>, Json)>,
    count: nat,
)
    requires
        count <= a.len() == b.len(),
        forall|i: int|
            0 <= i < a.len() ==> (#[trigger] a[i]).0 == b[i].0 && json::same(a[i].1, b[i].1),
    ensures
        canonical_entries(a, count) == canonical_entries(b, count),
    decreases a, count,
{
    if count > 0 {
        lemma_same_canonical_entries(a, b, (count - 1) as nat);
        let entry = a[count - 1];
        assert(decreases_to!(a => a[count - 1]));
        assert(decreases_to!(entry => entry.1));
        lemma_same_canonical(a[count - 1].1, b[count - 1].1);
    }
}

} // verus!
