//! Values with the same canonical bytes are equal.

use vstd::prelude::*;

use crate::json;
use crate::json::{Json, Number};
use crate::laws::texts;
use crate::message::json_cbor;
use crate::producer::digest;
use crate::text;

verus! {

/// What tells numbers apart: an integer, or the bits of a float that is none.
pub open spec fn number_key(number: Number) -> (bool, int) {
    match number {
        Number::Integer(n) => (true, n as int),
        Number::Float(bits) => match digest::float_integer(bits) {
            Some(n) => (true, n),
            None => (false, bits as int),
        },
    }
}

/// Whether two values are equal but for how an integer is written, as an integer or as a float.
pub open spec fn equal_in_value(a: Json, b: Json) -> bool
    decreases a,
{
    match (a, b) {
        (Json::Null, Json::Null) => true,
        (Json::Bool(x), Json::Bool(y)) => x == y,
        (Json::Number(x), Json::Number(y)) => number_key(x) == number_key(y),
        (Json::String(x), Json::String(y)) => x == y,
        (Json::Array(x), Json::Array(y)) => x.len() == y.len() && forall|i: int|
            0 <= i < x.len() ==> equal_in_value(#[trigger] x[i], y[i]),
        (Json::Object(x), Json::Object(y)) => x.len() == y.len() && forall|i: int|
            0 <= i < x.len() ==> (#[trigger] x[i]).0 == y[i].0 && equal_in_value(x[i].1, y[i].1),
        _ => false,
    }
}

/// Whether all lengths in a value fit eight bytes.
pub open spec fn countable(value: Json) -> bool
    decreases value,
{
    match value {
        Json::String(s) => text::utf8_len(s) <= u64::MAX,
        Json::Array(items) => items.len() <= u64::MAX && forall|i: int|
            0 <= i < items.len() ==> countable(#[trigger] items[i]),
        Json::Object(entries) => entries.len() <= u64::MAX && forall|i: int|
            0 <= i < entries.len() ==> text::utf8_len((#[trigger] entries[i]).0) <= u64::MAX
                && countable(entries[i].1),
        Json::Number(Number::Integer(n)) => text::utf8_len(text::decimal(n as int)) <= u64::MAX,
        Json::Number(Number::Float(bits)) => digest::float_integer(bits) matches Some(n)
            ==> text::utf8_len(text::decimal(n)) <= u64::MAX,
        _ => true,
    }
}

proof fn lemma_number_bytes(n: u64)
    ensures
        n == (n / 0x0100_0000_0000_0000 % 256) * 0x0100_0000_0000_0000 + (n
            / 0x0001_0000_0000_0000 % 256) * 0x0001_0000_0000_0000 + (n / 0x0000_0100_0000_0000
            % 256) * 0x0000_0100_0000_0000 + (n / 0x0000_0001_0000_0000 % 256)
            * 0x0000_0001_0000_0000 + (n / 0x0000_0000_0100_0000 % 256) * 0x0000_0000_0100_0000 + (n
            / 0x0000_0000_0001_0000 % 256) * 0x0000_0000_0001_0000 + (n / 0x0000_0000_0000_0100
            % 256) * 0x0000_0000_0000_0100 + n % 256,
{
    let a = n / 0x100;
    let b = n / 0x1_0000;
    let c = n / 0x100_0000;
    let d = n / 0x1_0000_0000;
    let e = n / 0x100_0000_0000;
    let f = n / 0x1_0000_0000_0000;
    let g = n / 0x100_0000_0000_0000;
    assert(n == a * 256 + n % 256);
    assert(b == a / 256 && a == b * 256 + a % 256);
    assert(c == b / 256 && b == c * 256 + b % 256);
    assert(d == c / 256 && c == d * 256 + c % 256);
    assert(e == d / 256 && d == e * 256 + d % 256);
    assert(f == e / 256 && e == f * 256 + e % 256);
    assert(g == f / 256 && f == g * 256 + f % 256);
    assert(g < 256);
}

/// Different numbers have different bytes.
proof fn lemma_be_bytes(a: u64, b: u64)
    requires
        digest::be_bytes(a) == digest::be_bytes(b),
    ensures
        a == b,
{
    lemma_number_bytes(a);
    lemma_number_bytes(b);
    let x = digest::be_bytes(a);
    let y = digest::be_bytes(b);
    assert(x[0] == y[0]);
    assert(x[1] == y[1]);
    assert(x[2] == y[2]);
    assert(x[3] == y[3]);
    assert(x[4] == y[4]);
    assert(x[5] == y[5]);
    assert(x[6] == y[6]);
    assert(x[7] == y[7]);
}

/// What follows the same number of bytes is the same.
proof fn lemma_split(a: Seq<u8>, r: Seq<u8>, b: Seq<u8>, s: Seq<u8>)
    requires
        a + r == b + s,
        a.len() == b.len(),
    ensures
        a == b,
        r == s,
{
    assert(a =~= (a + r).take(a.len() as int));
    assert(b =~= (b + s).take(b.len() as int));
    assert(r =~= (a + r).skip(a.len() as int));
    assert(s =~= (b + s).skip(b.len() as int));
}

proof fn lemma_sized(u: Seq<u8>, r: Seq<u8>, v: Seq<u8>, s: Seq<u8>)
    requires
        digest::sized(u) + r == digest::sized(v) + s,
        u.len() <= u64::MAX,
        v.len() <= u64::MAX,
    ensures
        u == v,
        r == s,
{
    let x = digest::be_bytes(u.len() as u64);
    let y = digest::be_bytes(v.len() as u64);
    assert(digest::sized(u) + r =~= x + (u + r));
    assert(digest::sized(v) + s =~= y + (v + s));
    lemma_split(x, u + r, y, v + s);
    lemma_be_bytes(u.len() as u64, v.len() as u64);
    lemma_split(u, r, v, s);
}

/// The canonical bytes of the items from one on.
spec fn items_from(items: Seq<Json>, at: int) -> Seq<u8>
    decreases items.len() - at,
{
    if at >= items.len() {
        Seq::empty()
    } else {
        digest::canonical(items[at]) + items_from(items, at + 1)
    }
}

proof fn lemma_items_from(items: Seq<Json>, at: int)
    requires
        0 <= at <= items.len(),
    ensures
        digest::canonical_items(items, items.len()) == digest::canonical_items(items, at as nat)
            + items_from(items, at),
    decreases items.len() - at,
{
    if at < items.len() {
        lemma_items_from(items, at + 1);
        assert(digest::canonical_items(items, (at + 1) as nat) == digest::canonical_items(
            items,
            at as nat,
        ) + digest::canonical(items[at]));
        assert(digest::canonical_items(items, items.len()) =~= digest::canonical_items(
            items,
            at as nat,
        ) + items_from(items, at));
    } else {
        assert(digest::canonical_items(items, items.len()) =~= digest::canonical_items(
            items,
            at as nat,
        ) + items_from(items, at));
    }
}

/// The canonical bytes of one property.
spec fn entry_bytes(entry: (Seq<char>, Json)) -> Seq<u8> {
    (seq![0x4bu8] + digest::sized(vstd::utf8::encode_utf8(entry.0))) + digest::canonical(entry.1)
}

spec fn entries_from(entries: Seq<(Seq<char>, Json)>, at: int) -> Seq<u8>
    decreases entries.len() - at,
{
    if at >= entries.len() {
        Seq::empty()
    } else {
        entry_bytes(entries[at]) + entries_from(entries, at + 1)
    }
}

proof fn lemma_entries_from(entries: Seq<(Seq<char>, Json)>, at: int)
    requires
        0 <= at <= entries.len(),
    ensures
        digest::canonical_entries(entries, entries.len()) == digest::canonical_entries(
            entries,
            at as nat,
        ) + entries_from(entries, at),
    decreases entries.len() - at,
{
    if at < entries.len() {
        lemma_entries_from(entries, at + 1);
        assert(digest::canonical_entries(entries, (at + 1) as nat) =~= digest::canonical_entries(
            entries,
            at as nat,
        ) + entry_bytes(entries[at]));
    }
    assert(digest::canonical_entries(entries, entries.len()) =~= digest::canonical_entries(
        entries,
        at as nat,
    ) + entries_from(entries, at));
}

/// What stands behind a mark and a count is told by them.
proof fn lemma_counted(mark: u8, m: nat, t: Seq<u8>, n: nat, u: Seq<u8>)
    requires
        (seq![mark] + digest::be_bytes(m as u64)) + t == (seq![mark] + digest::be_bytes(n as u64)) + u,
        m <= u64::MAX,
        n <= u64::MAX,
    ensures
        m == n,
        t == u,
{
    let x = seq![mark] + digest::be_bytes(m as u64);
    let y = seq![mark] + digest::be_bytes(n as u64);
    lemma_split(x, t, y, u);
    assert(x.drop_first() =~= digest::be_bytes(m as u64));
    assert(y.drop_first() =~= digest::be_bytes(n as u64));
    lemma_be_bytes(m as u64, n as u64);
}

/// A mark, and bytes behind their number.
proof fn lemma_marked(mark: u8, u: Seq<u8>, r: Seq<u8>, v: Seq<u8>, s: Seq<u8>)
    requires
        (seq![mark] + digest::sized(u)) + r == (seq![mark] + digest::sized(v)) + s,
        u.len() <= u64::MAX,
        v.len() <= u64::MAX,
    ensures
        u == v,
        r == s,
{
    let front = seq![mark];
    let x = digest::sized(u);
    let y = digest::sized(v);
    assert((front + x) + r =~= front + (x + r));
    assert((front + y) + s =~= front + (y + s));
    lemma_split(front, x + r, front, y + s);
    lemma_sized(u, r, v, s);
}

proof fn lemma_array_bytes(items: Seq<Json>, r: Seq<u8>)
    ensures
        digest::canonical(Json::Array(items)) + r == (seq![0x41u8] + digest::be_bytes(
            items.len() as u64,
        )) + (items_from(items, 0) + r),
{
    lemma_items_from(items, 0);
    let head = seq![0x41u8] + digest::be_bytes(items.len() as u64);
    let all = digest::canonical_items(items, items.len());
    assert(digest::canonical_items(items, 0) + items_from(items, 0) =~= items_from(items, 0));
    assert((head + all) + r =~= head + (all + r));
}

proof fn lemma_object_bytes(entries: Seq<(Seq<char>, Json)>, r: Seq<u8>)
    ensures
        digest::canonical(Json::Object(entries)) + r == (seq![0x4fu8] + digest::be_bytes(
            entries.len() as u64,
        )) + (entries_from(entries, 0) + r),
{
    lemma_entries_from(entries, 0);
    let head = seq![0x4fu8] + digest::be_bytes(entries.len() as u64);
    let all = digest::canonical_entries(entries, entries.len());
    assert(digest::canonical_entries(entries, 0) + entries_from(entries, 0) =~= entries_from(
        entries,
        0,
    ));
    assert((head + all) + r =~= head + (all + r));
}

/// The first canonical byte tells the kind of a value.
spec fn kind_mark(value: Json) -> u8 {
    match value {
        Json::Null => 0x4e,
        Json::Bool(_) => 0x42,
        Json::Number(n) => if number_key(n).0 {
            0x49
        } else {
            0x46
        },
        Json::String(_) => 0x53,
        Json::Array(_) => 0x41,
        Json::Object(_) => 0x4f,
    }
}

proof fn lemma_kind_mark(value: Json, r: Seq<u8>)
    ensures
        (digest::canonical(value) + r).len() > 0,
        (digest::canonical(value) + r)[0] == kind_mark(value),
{
    let x = digest::canonical(value);
    assert(x.len() > 0 && x[0] == kind_mark(value));
    assert((x + r)[0] == x[0]);
}

proof fn lemma_items(x: Seq<Json>, y: Seq<Json>, at: int, r: Seq<u8>, s: Seq<u8>)
    requires
        x.len() == y.len(),
        0 <= at <= x.len(),
        forall|i: int| 0 <= i < x.len() ==> countable(#[trigger] x[i]),
        forall|i: int| 0 <= i < y.len() ==> countable(#[trigger] y[i]),
        items_from(x, at) + r == items_from(y, at) + s,
    ensures
        r == s,
        forall|i: int| at <= i < x.len() ==> equal_in_value(#[trigger] x[i], y[i]),
    decreases x, x.len() - at,
{
    if at < x.len() {
        let p = items_from(x, at + 1) + r;
        let q = items_from(y, at + 1) + s;
        assert(items_from(x, at) + r =~= digest::canonical(x[at]) + p);
        assert(items_from(y, at) + s =~= digest::canonical(y[at]) + q);
        lemma_value(x[at], y[at], p, q);
        lemma_items(x, y, at + 1, r, s);
    } else {
        assert(items_from(x, at) + r =~= r);
        assert(items_from(y, at) + s =~= s);
    }
}

proof fn lemma_entry_bytes(front: Seq<u8>, value: Seq<u8>, rest: Seq<u8>, r: Seq<u8>)
    ensures
        ((front + value) + rest) + r == front + (value + (rest + r)),
{
    assert(((front + value) + rest) + r =~= front + (value + (rest + r)));
}

proof fn lemma_entries(
    x: Seq<(Seq<char>, Json)>,
    y: Seq<(Seq<char>, Json)>,
    at: int,
    r: Seq<u8>,
    s: Seq<u8>,
)
    requires
        x.len() == y.len(),
        0 <= at <= x.len(),
        forall|i: int|
            0 <= i < x.len() ==> text::utf8_len((#[trigger] x[i]).0) <= u64::MAX && countable(
                x[i].1,
            ),
        forall|i: int|
            0 <= i < y.len() ==> text::utf8_len((#[trigger] y[i]).0) <= u64::MAX && countable(
                y[i].1,
            ),
        entries_from(x, at) + r == entries_from(y, at) + s,
    ensures
        r == s,
        forall|i: int|
            at <= i < x.len() ==> (#[trigger] x[i]).0 == y[i].0 && equal_in_value(x[i].1, y[i].1),
    decreases x, x.len() - at,
{
    if at < x.len() {
        let p = entries_from(x, at + 1) + r;
        let q = entries_from(y, at + 1) + s;
        let u = vstd::utf8::encode_utf8(x[at].0);
        let v = vstd::utf8::encode_utf8(y[at].0);
        let a = digest::canonical(x[at].1);
        let b = digest::canonical(y[at].1);
        let front = seq![0x4bu8] + digest::sized(u);
        let back = seq![0x4bu8] + digest::sized(v);
        lemma_entry_bytes(front, a, entries_from(x, at + 1), r);
        lemma_entry_bytes(back, b, entries_from(y, at + 1), s);
        lemma_marked(0x4b, u, a + p, v, b + q);
        text::lemma_utf8_injective(x[at].0, y[at].0);
        let entry = x[at];
        assert(decreases_to!(x => x[at]));
        assert(decreases_to!(entry => entry.1));
        lemma_value(x[at].1, y[at].1, p, q);
        lemma_entries(x, y, at + 1, r, s);
    } else {
        assert(entries_from(x, at) + r =~= r);
        assert(entries_from(y, at) + s =~= s);
    }
}

proof fn lemma_number(x: Number, y: Number, r: Seq<u8>, s: Seq<u8>)
    requires
        countable(Json::Number(x)),
        countable(Json::Number(y)),
        digest::canonical(Json::Number(x)) + r == digest::canonical(Json::Number(y)) + s,
    ensures
        number_key(x) == number_key(y),
        r == s,
{
    lemma_kind_mark(Json::Number(x), r);
    lemma_kind_mark(Json::Number(y), s);
    let m = number_key(x).1;
    let n = number_key(y).1;
    if number_key(x).0 {
        let u = vstd::utf8::encode_utf8(text::decimal(m));
        let v = vstd::utf8::encode_utf8(text::decimal(n));
        lemma_marked(0x49, u, r, v, s);
        text::lemma_utf8_injective(text::decimal(m), text::decimal(n));
        texts::law_numerals_differ(m, n);
    } else {
        lemma_float(x->Float_0, r, y->Float_0, s);
    }
}

proof fn lemma_float(c: u64, r: Seq<u8>, d: u64, s: Seq<u8>)
    requires
        (seq![0x46u8] + digest::be_bytes(c)) + r == (seq![0x46u8] + digest::be_bytes(d)) + s,
    ensures
        c == d,
        r == s,
{
    lemma_counted(0x46, c as nat, r, d as nat, s);
}

proof fn lemma_value(a: Json, b: Json, r: Seq<u8>, s: Seq<u8>)
    requires
        countable(a),
        countable(b),
        digest::canonical(a) + r == digest::canonical(b) + s,
    ensures
        equal_in_value(a, b),
        r == s,
    decreases a, 0int,
{
    lemma_kind_mark(a, r);
    lemma_kind_mark(b, s);
    match (a, b) {
        (Json::Null, Json::Null) => {
            lemma_split(seq![0x4eu8], r, seq![0x4eu8], s);
        },
        (Json::Bool(_), Json::Bool(_)) => {
            let x = digest::canonical(a);
            let y = digest::canonical(b);
            lemma_split(x, r, y, s);
            assert(x[1] == y[1]);
        },
        (Json::Number(m), Json::Number(n)) => {
            lemma_number(m, n, r, s);
        },
        (Json::String(m), Json::String(n)) => {
            let u = vstd::utf8::encode_utf8(m);
            let v = vstd::utf8::encode_utf8(n);
            lemma_marked(0x53, u, r, v, s);
            text::lemma_utf8_injective(m, n);
        },
        (Json::Array(m), Json::Array(n)) => {
            assert(a->Array_0 == m && b->Array_0 == n);
            lemma_array_bytes(m, r);
            lemma_array_bytes(n, s);
            lemma_counted(0x41, m.len(), items_from(m, 0) + r, n.len(), items_from(n, 0) + s);
            assert(decreases_to!(a => a->Array_0));
            lemma_items(m, n, 0, r, s);
        },
        (Json::Object(m), Json::Object(n)) => {
            assert(a->Object_0 == m && b->Object_0 == n);
            lemma_object_bytes(m, r);
            lemma_object_bytes(n, s);
            lemma_counted(0x4f, m.len(), entries_from(m, 0) + r, n.len(), entries_from(n, 0) + s);
            assert(decreases_to!(a => a->Object_0));
            lemma_entries(m, n, 0, r, s);
        },
        _ => {},
    }
}

/// Values have the same canonical bytes only if they are equal in value. So two values share a
/// digest only if they are, or if the hashes of different bytes collide.
pub proof fn law_canonical_bytes_tell_values_apart(a: Json, b: Json)
    requires
        countable(a),
        countable(b),
        digest::canonical(a) == digest::canonical(b),
    ensures
        equal_in_value(a, b),
{
    let none = Seq::<u8>::empty();
    assert(digest::canonical(a) + none =~= digest::canonical(b) + none);
    lemma_value(a, b, none, none);
}

/// The integer that a negative float equals is the negative of that of the positive one.
pub proof fn law_negative_floats_equal_negative_integers(bits: u64)
    requires
        bits < 0x8000_0000_0000_0000u64,
    ensures
        match (
            digest::float_integer(bits),
            digest::float_integer((bits + 0x8000_0000_0000_0000) as u64),
        ) {
            (Some(m), Some(n)) => m >= 0 && n == -m,
            (None, None) => true,
            _ => false,
        },
{
    let negative = (bits + 0x8000_0000_0000_0000) as u64;
    let magnitude = (bits % json_cbor::FLOAT_SIGN) as u64;
    assert(negative % json_cbor::FLOAT_SIGN == magnitude);
    let shift = digest::float_shift(magnitude);
    if 0 <= shift <= 52 {
        let power = vstd::arithmetic::power2::pow2(shift as nat);
        vstd::arithmetic::power2::lemma_pow2_pos(shift as nat);
        vstd::arithmetic::div_mod::lemma_div_pos_is_pos(
            digest::float_mantissa(magnitude) as int,
            power as int,
        );
    }
}

} // verus!
