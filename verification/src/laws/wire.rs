//! What messages mean, item by item.

use vstd::prelude::*;

use crate::apply;
use crate::cbor;
use crate::cbor::Cbor;
use crate::consumer;
use crate::consumer::ConsumerModel;
use crate::error;
use crate::error::{ErrorModel, JsyncErrorKind};
use crate::json::Json;
use crate::message::action::{Act, Edit, Segment};
use crate::message::decoder;
use crate::message::decoder::Notation;
use crate::message::encoder;
use crate::message::json_cbor;
use crate::text;

verus! {

/// A message is three bytes of header and one CBOR item, which takes up all that follows. Anything
/// else is refused: a header with a higher version, any other header, bytes that start with no
/// item, and bytes behind the item.
pub proof fn law_messages_are_a_header_and_an_item(bytes: Seq<u8>)
    ensures
        ({
            let tagged = bytes.len() >= 3 && bytes[0] == 0xd9 && bytes[1] == 0xff;
            let parsed = cbor::cbor_parse(bytes.skip(3));
            match decoder::payload_of(bytes) {
                Ok(payload) => tagged && bytes[2] == 1 && parsed == Some(
                    (payload, bytes.len() - 3),
                ),
                Err(e) => if tagged && bytes[2] > 1 {
                    e.kind == JsyncErrorKind::UnsupportedVersion
                } else if !(tagged && bytes[2] == 1) {
                    e.kind == JsyncErrorKind::InvalidHeader
                } else {
                    match parsed {
                        None => e.kind == JsyncErrorKind::CborDecode,
                        Some((_, length)) => length != bytes.len() - 3 && e.kind
                            == JsyncErrorKind::TrailingBytes,
                    }
                },
            }
        }),
{
    if bytes.len() >= 3 {
        let head = bytes.take(3);
        let header = encoder::header();
        assert(head[0] == bytes[0] && head[1] == bytes[1] && head[2] == bytes[2]);
        if bytes[0] == 0xd9 && bytes[1] == 0xff && bytes[2] == 1 {
            assert(head =~= header);
        }
    }
}

/// A segment of a path stands for itself: a text for a key, and an integer that is not negative for
/// an index.
pub proof fn law_segments_stand_for_themselves(item: Cbor, at: int)
    ensures
        match item {
            Cbor::Text(key) => decoder::parse_segment(item, at) == Ok::<Segment, ErrorModel>(
                Segment::Key(key),
            ),
            Cbor::Integer(n) if 0 <= n <= usize::MAX => decoder::parse_segment(item, at) == Ok::<
                Segment,
                ErrorModel,
            >(Segment::Index(n)),
            _ => decoder::parse_segment(item, at) matches Err(e) && e.kind
                == JsyncErrorKind::InvalidPath,
        },
{
}

/// The values of results that are all good.
proof fn lemma_gathered<T>(results: Seq<Result<T, ErrorModel>>, count: nat)
    requires
        count <= results.len(),
    ensures
        match error::gather(results, count) {
            Ok(values) => values.len() == count && forall|i: int|
                0 <= i < count ==> #[trigger] results[i] == Ok::<T, ErrorModel>(values[i]),
            Err(e) => exists|i: int|
                0 <= i < count && #[trigger] results[i] == Err::<T, ErrorModel>(e),
        },
    decreases count,
{
    if count > 0 {
        lemma_gathered(results, (count - 1) as nat);
    }
}

/// A path that is written out has the segments that its items stand for. A pooled path has the
/// segments that the pool has at the indexes which its items are. Anything else is refused.
pub proof fn law_paths_are_read_segment_by_segment(item: Cbor, pool: Seq<Segment>)
    ensures
        match (item, decoder::read_path(item, Notation::Inline)) {
            (Cbor::Array(items), Ok(path)) => path.len() == items.len() && forall|i: int|
                0 <= i < items.len() ==> match #[trigger] items[i] {
                    Cbor::Text(key) => path[i] == Segment::Key(key),
                    Cbor::Integer(n) => 0 <= n <= usize::MAX && path[i] == Segment::Index(n),
                    _ => false,
                },
            (Cbor::Array(items), Err(e)) => e.kind == JsyncErrorKind::InvalidPath && exists|i: int|
                0 <= i < items.len() && match #[trigger] items[i] {
                    Cbor::Text(_) => false,
                    Cbor::Integer(n) => n < 0 || n > usize::MAX,
                    _ => true,
                },
            (_, result) => result matches Err(e) && e.kind == JsyncErrorKind::InvalidPath,
        },
        match (item, decoder::read_path(item, Notation::Pooled(pool))) {
            (Cbor::Array(items), Ok(path)) => path.len() == items.len() && forall|i: int|
                0 <= i < items.len() ==> match #[trigger] items[i] {
                    Cbor::Integer(n) => 0 <= n < pool.len() && path[i] == pool[n],
                    _ => false,
                },
            (Cbor::Array(items), Err(e)) => e.kind == JsyncErrorKind::InvalidPath && exists|i: int|
                0 <= i < items.len() && match #[trigger] items[i] {
                    Cbor::Integer(n) => n < 0 || n >= pool.len() || n > usize::MAX,
                    _ => true,
                },
            (_, result) => result matches Err(e) && e.kind == JsyncErrorKind::InvalidPath,
        },
{
    if let Cbor::Array(items) = item {
        let results = decoder::segment_results(items);
        lemma_gathered(results, items.len());
        match error::gather(results, items.len()) {
            Ok(path) => {
                assert forall|i: int| 0 <= i < items.len() implies match #[trigger] items[i] {
                    Cbor::Text(key) => path[i] == Segment::Key(key),
                    Cbor::Integer(n) => 0 <= n <= usize::MAX && path[i] == Segment::Index(n),
                    _ => false,
                } by {
                    assert(results[i] == decoder::parse_segment(items[i], i));
                }
            },
            Err(e) => {
                let i = choose|i: int|
                    0 <= i < items.len() && #[trigger] results[i] == Err::<Segment, ErrorModel>(e);
                assert(decoder::parse_segment(items[i], i) == results[i]);
            },
        }
        let pooled = decoder::pool_index_results(items, pool);
        lemma_gathered(pooled, items.len());
        match error::gather(pooled, items.len()) {
            Ok(path) => {
                assert forall|i: int| 0 <= i < items.len() implies match #[trigger] items[i] {
                    Cbor::Integer(n) => 0 <= n < pool.len() && path[i] == pool[n],
                    _ => false,
                } by {
                    assert(pooled[i] == decoder::parse_pool_index(items[i], i, pool));
                }
            },
            Err(e) => {
                let i = choose|i: int|
                    0 <= i < items.len() && #[trigger] pooled[i] == Err::<Segment, ErrorModel>(e);
                assert(decoder::parse_pool_index(items[i], i, pool) == pooled[i]);
            },
        }
    }
}

/// What an action without a path is on the wire: SNAPSHOT has the opcode 0, and its value. REMOVE
/// has the opcode 2, and its path.
pub proof fn law_snapshots_and_removals_on_the_wire(a: Cbor, notation: Notation)
    ensures
        match (
            json_cbor::from_cbor(a),
            decoder::parse_act(Cbor::Array(seq![Cbor::Integer(0), a]), notation),
        ) {
            (Ok(value), result) => result == Ok::<Act, ErrorModel>(Act::Snapshot { value }),
            (Err(x), Err(y)) => x.kind == y.kind,
            _ => false,
        },
        match (
            decoder::read_path(a, notation),
            decoder::parse_act(Cbor::Array(seq![Cbor::Integer(2), a]), notation),
        ) {
            (Ok(path), result) => result == Ok::<Act, ErrorModel>(Act::Remove { path }),
            (Err(x), Err(y)) => x.kind == y.kind,
            _ => false,
        },
{
    let snapshot = seq![Cbor::Integer(0), a];
    let remove = seq![Cbor::Integer(2), a];
    assert(snapshot[1] == a && remove[1] == a);
}

/// What actions with a path and a value are on the wire: ADD has the opcode 1, and REPLACE the
/// opcode 3.
pub proof fn law_additions_and_replacements_on_the_wire(a: Cbor, b: Cbor, notation: Notation)
    ensures
        ({
            let add = decoder::parse_act(Cbor::Array(seq![Cbor::Integer(1), a, b]), notation);
            let replace = decoder::parse_act(Cbor::Array(seq![Cbor::Integer(3), a, b]), notation);
            match (decoder::read_path(a, notation), json_cbor::from_cbor(b)) {
                (Ok(path), Ok(value)) => {
                    &&& add == Ok::<Act, ErrorModel>(Act::Add { path, value })
                    &&& replace == Ok::<Act, ErrorModel>(Act::Replace { path, value })
                },
                (Err(x), _) => {
                    &&& add matches Err(y) && x.kind == y.kind
                    &&& replace matches Err(y) && x.kind == y.kind
                },
                (_, Err(x)) => {
                    &&& add matches Err(y) && x.kind == y.kind
                    &&& replace matches Err(y) && x.kind == y.kind
                },
            }
        }),
{
    let add = seq![Cbor::Integer(1), a, b];
    let replace = seq![Cbor::Integer(3), a, b];
    assert(add[1] == a && add[2] == b);
    assert(replace[1] == a && replace[2] == b);
}

/// What actions with a path and a text are on the wire: APPEND has the opcode 4, and PREPEND the
/// opcode 5.
pub proof fn law_texts_on_the_wire(a: Cbor, text: Seq<char>, notation: Notation)
    ensures
        ({
            let b = Cbor::Text(text);
            let append = decoder::parse_act(Cbor::Array(seq![Cbor::Integer(4), a, b]), notation);
            let prepend = decoder::parse_act(Cbor::Array(seq![Cbor::Integer(5), a, b]), notation);
            match decoder::read_path(a, notation) {
                Ok(path) => {
                    &&& append == Ok::<Act, ErrorModel>(Act::StringAppend { path, text })
                    &&& prepend == Ok::<Act, ErrorModel>(Act::StringPrepend { path, text })
                },
                Err(x) => {
                    &&& append matches Err(y) && x.kind == y.kind
                    &&& prepend matches Err(y) && x.kind == y.kind
                },
            }
        }),
{
    let b = Cbor::Text(text);
    let append = seq![Cbor::Integer(4), a, b];
    let prepend = seq![Cbor::Integer(5), a, b];
    assert(append[1] == a && append[2] == b);
    assert(prepend[1] == a && prepend[2] == b);
}

/// What actions with two paths are on the wire: COPY has the opcode 6, and MOVE the opcode 7. The
/// source comes first.
pub proof fn law_copies_and_moves_on_the_wire(a: Cbor, b: Cbor, notation: Notation)
    ensures
        ({
            let copied = decoder::parse_act(Cbor::Array(seq![Cbor::Integer(6), a, b]), notation);
            let moved = decoder::parse_act(Cbor::Array(seq![Cbor::Integer(7), a, b]), notation);
            match (decoder::read_path(a, notation), decoder::read_path(b, notation)) {
                (Ok(from), Ok(path)) => {
                    &&& copied == Ok::<Act, ErrorModel>(Act::Copy { from, path })
                    &&& moved == Ok::<Act, ErrorModel>(Act::Move { from, path })
                },
                (Err(x), _) => {
                    &&& copied matches Err(y) && x.kind == y.kind
                    &&& moved matches Err(y) && x.kind == y.kind
                },
                (_, Err(x)) => {
                    &&& copied matches Err(y) && x.kind == y.kind
                    &&& moved matches Err(y) && x.kind == y.kind
                },
            }
        }),
{
    let copied = seq![Cbor::Integer(6), a, b];
    let moved = seq![Cbor::Integer(7), a, b];
    assert(copied[1] == a && copied[2] == b);
    assert(moved[1] == a && moved[2] == b);
}

/// What a patch is on the wire: STRING_PATCH has the opcode 8, and ARRAY_PATCH the opcode 10.
pub proof fn law_patches_on_the_wire(a: Cbor, b: Cbor, notation: Notation)
    ensures
        ({
            let string = decoder::parse_act(Cbor::Array(seq![Cbor::Integer(8), a, b]), notation);
            match (decoder::read_path(a, notation), decoder::parse_string_edits(b)) {
                (Ok(path), Ok(edits)) => string == Ok::<Act, ErrorModel>(
                    Act::StringPatch { path, edits },
                ),
                (Err(x), _) => string matches Err(y) && x.kind == y.kind,
                (_, Err(x)) => string matches Err(y) && x.kind == y.kind,
            }
        }),
        ({
            let array = decoder::parse_act(Cbor::Array(seq![Cbor::Integer(10), a, b]), notation);
            match (decoder::read_path(a, notation), decoder::parse_array_edits(b)) {
                (Ok(path), Ok(edits)) => array == Ok::<Act, ErrorModel>(
                    Act::ArrayPatch { path, edits },
                ),
                (Err(x), _) => array matches Err(y) && x.kind == y.kind,
                (_, Err(x)) => array matches Err(y) && x.kind == y.kind,
            }
        }),
{
    let string = seq![Cbor::Integer(8), a, b];
    let array = seq![Cbor::Integer(10), a, b];
    assert(string[1] == a && string[2] == b);
    assert(array[1] == a && array[2] == b);
}

/// An edit on the wire is its start, its delete count and what it inserts. Edits are read one by
/// one.
pub proof fn law_edits_on_the_wire(items: Seq<Cbor>, i: int)
    requires
        0 <= i < items.len(),
    ensures
        decoder::parse_string_edits(Cbor::Array(items)) matches Ok(edits) ==> {
            &&& edits.len() == items.len()
            &&& items[i] == Cbor::Array(
                seq![
                    Cbor::Integer(edits[i].start),
                    Cbor::Integer(edits[i].delete_count),
                    Cbor::Text(edits[i].items),
                ],
            )
            &&& edits[i].start >= 0
            &&& edits[i].delete_count >= 0
        },
        decoder::parse_array_edits(Cbor::Array(items)) matches Ok(edits) ==> {
            &&& edits.len() == items.len()
            &&& items[i] matches Cbor::Array(elements) && {
                &&& elements.len() == 3
                &&& elements[0] == Cbor::Integer(edits[i].start)
                &&& elements[1] == Cbor::Integer(edits[i].delete_count)
                &&& json_cbor::from_cbor(elements[2]) == Ok::<Json, ErrorModel>(
                    Json::Array(edits[i].items),
                )
            }
            &&& edits[i].start >= 0
            &&& edits[i].delete_count >= 0
        },
{
    let strings = decoder::string_edit_results(items);
    lemma_gathered(strings, items.len());
    if let Ok(edits) = decoder::parse_string_edits(Cbor::Array(items)) {
        assert(strings[i] == Ok::<Edit<char>, ErrorModel>(edits[i]));
        let elements = items[i]->Array_0;
        assert(elements =~= seq![
            Cbor::Integer(edits[i].start),
            Cbor::Integer(edits[i].delete_count),
            Cbor::Text(edits[i].items),
        ]);
    }
    let arrays = decoder::array_edit_results(items);
    lemma_gathered(arrays, items.len());
    if let Ok(edits) = decoder::parse_array_edits(Cbor::Array(items)) {
        assert(arrays[i] == Ok::<Edit<Json>, ErrorModel>(edits[i]));
    }
}

/// How many elements an action has on the wire: two for the opcodes 0 and 2, and three for the
/// others. Other opcodes, and actions without one, are refused.
pub proof fn law_malformed_actions_are_refused(item: Cbor, notation: Notation)
    ensures
        ({
            let result = decoder::parse_act(item, notation);
            match item {
                Cbor::Array(elements) => if elements.len() == 0 {
                    result matches Err(e) && e.kind == JsyncErrorKind::InvalidActionLength
                } else {
                    match elements[0] {
                        Cbor::Integer(n) => if n < 0 || n == 9 || n > 10 {
                            result matches Err(e) && e.kind == JsyncErrorKind::UnknownAction
                        } else if elements.len() != (if n == 0 || n == 2 {
                            2int
                        } else {
                            3int
                        }) {
                            result matches Err(e) && e.kind == JsyncErrorKind::InvalidActionLength
                        } else {
                            true
                        },
                        _ => result matches Err(e) && e.kind == JsyncErrorKind::UnknownAction,
                    }
                },
                _ => result matches Err(e) && e.kind == JsyncErrorKind::ActionNotArray,
            }
        }),
{
}

/// The actions of a message are read one by one, in their order. The first that cannot be read
/// makes the message fail.
pub proof fn law_actions_are_read_one_by_one(item: Cbor, notation: Notation)
    ensures
        match (item, decoder::parse_acts(item, notation)) {
            (Cbor::Array(items), Ok(acts)) => acts.len() == items.len() && forall|i: int|
                0 <= i < items.len() ==> decoder::parse_act(#[trigger] items[i], notation) == Ok::<
                    Act,
                    ErrorModel,
                >(acts[i]),
            (Cbor::Array(items), Err(e)) => exists|i: int|
                0 <= i < items.len() && (decoder::parse_act(
                    #[trigger] items[i],
                    notation,
                ) matches Err(x) && e == x.with_metadata(
                    "action_index"@,
                    text::decimal(i),
                ).with_context("while parsing a Jsync action"@)),
            (_, result) => result matches Err(e) && e.kind == JsyncErrorKind::MessageNotArray,
        },
{
    if let Cbor::Array(items) = item {
        let results = decoder::act_results(items, notation);
        lemma_gathered(results, items.len());
        match decoder::parse_acts(item, notation) {
            Ok(acts) => {
                assert forall|i: int| 0 <= i < items.len() implies decoder::parse_act(
                    #[trigger] items[i],
                    notation,
                ) == Ok::<Act, ErrorModel>(acts[i]) by {
                    assert(results[i] == Ok::<Act, ErrorModel>(acts[i]));
                }
            },
            Err(e) => {
                let i = choose|i: int|
                    0 <= i < items.len() && #[trigger] results[i] == Err::<Act, ErrorModel>(e);
                assert(decoder::parse_act(items[i], notation) is Err);
            },
        }
    }
}

/// A paired payload adds the segments that it declares to the end of the pool, and its actions are
/// read with the pool that results.
pub proof fn law_paired_payloads_declare_segments(
    declared: Cbor,
    body: Cbor,
    pool: Seq<Segment>,
)
    requires
        declared is Array,
    ensures
        ({
            let payload = Cbor::Array(seq![Cbor::Array(seq![declared]), body]);
            let (after, result) = decoder::parse_payload(payload, pool);
            match decoder::read_path(declared, Notation::Inline) {
                Ok(segments) => {
                    &&& after == pool + segments
                    &&& result == decoder::parse_acts(body, Notation::Pooled(pool + segments))
                },
                Err(e) => after == pool && result == Err::<Seq<Act>, ErrorModel>(e),
            }
        }),
{
    let metadata = Cbor::Array(seq![declared]);
    let payload = Cbor::Array(seq![metadata, body]);
    let items = payload->Array_0;
    assert(items[0] == metadata && items[1] == body);
    assert(metadata->Array_0[0] == declared);
}

/// A tagged payload declares segments under the tag 0, and its actions follow.
pub proof fn law_tagged_payloads_declare_segments(
    declared: Cbor,
    body: Cbor,
    pool: Seq<Segment>,
)
    ensures
        ({
            let payload = Cbor::Array(seq![Cbor::Integer(0), declared, body]);
            let (after, result) = decoder::parse_payload(payload, pool);
            match decoder::read_path(declared, Notation::Inline) {
                Ok(segments) => {
                    &&& after == pool + segments
                    &&& result == decoder::parse_acts(body, Notation::Pooled(pool + segments))
                },
                Err(e) => after == pool && result == Err::<Seq<Act>, ErrorModel>(e),
            }
        }),
{
    let payload = Cbor::Array(seq![Cbor::Integer(0), declared, body]);
    let items = payload->Array_0;
    let metadata = items.drop_last();
    assert(items.last() == body);
    assert(metadata[0] == Cbor::Integer(0) && metadata[1] == declared);
    let none = decoder::parse_pairs(metadata, 0);
    let all = decoder::parse_pairs(metadata, 1);
    assert(none.error is None && !none.seen);
    assert((items.len() - 1) as nat / 2 == 1);
    match decoder::read_path(declared, Notation::Inline) {
        Ok(segments) => {
            assert(Seq::<Segment>::empty() + segments =~= segments);
            assert(all.added == segments);
        },
        Err(e) => {
            assert(pool + Seq::<Segment>::empty() =~= pool);
        },
    }
}

/// A payload that is no array is refused.
pub proof fn law_payloads_are_arrays(payload: Cbor, pool: Seq<Segment>)
    requires
        !(payload is Array),
    ensures
        decoder::parse_payload(payload, pool).0 == pool,
        decoder::parse_payload(payload, pool).1 matches Err(e) && e.kind
            == JsyncErrorKind::MessageNotArray,
{
}

/// Actions are applied one after the other, each to what the one before it has left. The first that
/// fails makes all fail, with its error and its position.
pub proof fn law_actions_are_applied_in_turn(document: Json, acts: Seq<Act>, last: Act)
    ensures
        consumer::run(document, Seq::empty(), 0) == Ok::<Json, ErrorModel>(document),
        ({
            let all = acts.push(last);
            match consumer::run(document, acts, acts.len()) {
                Ok(before) => match (
                    apply::apply_act(before, last),
                    consumer::run(document, all, all.len()),
                ) {
                    (Ok(x), Ok(y)) => x == y,
                    (Err(x), Err(y)) => y == x.with_metadata(
                        "action_index"@,
                        text::decimal(acts.len() as int),
                    ).with_context("while applying a Jsync action"@),
                    _ => false,
                },
                Err(e) => consumer::run(document, all, all.len()) == Err::<Json, ErrorModel>(e),
            }
        }),
{
    let all = acts.push(last);
    lemma_first_actions(document, acts, all, acts.len());
    assert(all[acts.len() as int] == last);
}

proof fn lemma_first_actions(document: Json, a: Seq<Act>, b: Seq<Act>, count: nat)
    requires
        count <= a.len(),
        count <= b.len(),
        forall|i: int| 0 <= i < count ==> a[i] == b[i],
    ensures
        consumer::run(document, a, count) == consumer::run(document, b, count),
    decreases count,
{
    if count > 0 {
        lemma_first_actions(document, a, b, (count - 1) as nat);
    }
}

/// A consumer that has consumed no message refuses one that does not start with SNAPSHOT. Otherwise
/// it applies the actions to its document, and then has what they give and the pool of the message.
/// It fails where decoding or applying fails.
pub proof fn law_consumers_apply_messages(consumer: ConsumerModel, bytes: Seq<u8>)
    requires
        consumer.initialized ==> consumer.document is Some,
    ensures
        ({
            let (pool, decoded) = decoder::decode(bytes, consumer.pool);
            let result = consumer::after_message(consumer, bytes);
            match decoded {
                Err(e) => result == Err::<ConsumerModel, ErrorModel>(e),
                Ok(acts) => if !consumer.initialized && (acts.len() == 0 || !(acts[0] is Snapshot)) {
                    result matches Err(e) && e.kind == JsyncErrorKind::InitialSnapshotRequired
                } else {
                    let start = if consumer.document is Some {
                        consumer.document->0
                    } else {
                        Json::Null
                    };
                    match (consumer::run(start, acts, acts.len()), result) {
                        (Ok(document), Ok(after)) => {
                            &&& after.document == Some(document)
                            &&& after.initialized
                            &&& after.pool == pool
                        },
                        (Err(x), Err(y)) => x == y,
                        _ => false,
                    }
                },
            }
        }),
{
}

/// Settling changes no item without infinite floats and NaNs in it.
pub proof fn law_settling_keeps_finite_floats(item: Cbor)
    requires
        all_finite(item),
    ensures
        cbor::settled(item) == item,
    decreases item,
{
    match item {
        Cbor::Array(items) => {
            let after = cbor::settled(item)->Array_0;
            assert forall|i: int| 0 <= i < items.len() implies after[i] == items[i] by {
                assert(all_finite(items[i]));
                cbor::lemma_cbor_item_smaller(items, i);
                law_settling_keeps_finite_floats(items[i]);
            }
            assert(after =~= items);
        },
        Cbor::Dict(entries) => {
            let after = cbor::settled(item)->Dict_0;
            assert forall|i: int| 0 <= i < entries.len() implies after[i] == entries[i] by {
                assert(all_finite(entries[i].0) && all_finite(entries[i].1));
                cbor::lemma_cbor_pair_smaller(entries, i);
                law_settling_keeps_finite_floats(entries[i].0);
                law_settling_keeps_finite_floats(entries[i].1);
            }
            assert(after =~= entries);
        },
        Cbor::Tag(tag, inner) => {
            law_settling_keeps_finite_floats(*inner);
        },
        _ => {},
    }
}

/// Whether the exponent of no float in an item is the largest, as that of an infinity or a NaN is.
pub open spec fn all_finite(item: Cbor) -> bool
    decreases item,
{
    match item {
        Cbor::Float(bits) => bits / 0x10_0000_0000_0000 % 2048 != 2047,
        Cbor::Array(items) => forall|i: int|
            0 <= i < items.len() ==> all_finite(#[trigger] items[i]),
        Cbor::Dict(entries) => forall|i: int|
            0 <= i < entries.len() ==> all_finite((#[trigger] entries[i]).0) && all_finite(
                entries[i].1,
            ),
        Cbor::Tag(_, inner) => all_finite(*inner),
        _ => true,
    }
}

/// A failed action leaves the document as it was. The one exception is a MOVE whose value could be
/// taken out and not be put in: it leaves what REMOVE of the source gives.
pub proof fn law_failed_actions_leave_the_document(document: Json, act: Act)
    requires
        apply::apply_act(document, act) is Err,
    ensures
        match act {
            Act::Move { from, .. } => {
                let left = apply::left_by_failure(document, act);
                ||| left == document
                ||| apply::apply_act(document, Act::Remove { path: from }) == Ok::<
                    Json,
                    ErrorModel,
                >(left)
            },
            _ => apply::left_by_failure(document, act) == document,
        },
{
}

/// Settling keeps an infinite float or a NaN one that is not finite, so that no document holds it.
pub proof fn law_settling_makes_no_float_finite(bits: u64)
    requires
        bits / 0x10_0000_0000_0000 % 2048 == 2047,
    ensures
        cbor::settled(Cbor::Float(bits)) matches Cbor::Float(after) && after
            / 0x10_0000_0000_0000 % 2048 == 2047,
        json_cbor::from_cbor(cbor::settled(Cbor::Float(bits))) matches Err(e) && e.kind
            == JsyncErrorKind::InvalidJsonValue,
{
}

/// Whether the values that an action carries may be sent.
pub open spec fn carries_safe_values(act: Act) -> bool {
    match act {
        Act::Snapshot { value } => json_cbor::first_unsafe(value) is None,
        Act::Add { value, .. } => json_cbor::first_unsafe(value) is None,
        Act::Replace { value, .. } => json_cbor::first_unsafe(value) is None,
        Act::ArrayPatch { edits, .. } => forall|i: int, j: int|
            0 <= i < edits.len() && 0 <= j < edits[i].items.len() ==> json_cbor::first_unsafe(
                #[trigger] edits[i].items[j],
            ) is None,
        _ => true,
    }
}

/// Actions can be encoded just when all values that they carry may be sent.
pub proof fn law_actions_are_refused_for_their_values_only(acts: Seq<Act>)
    ensures
        match encoder::encoding_error(acts) {
            None => forall|i: int|
                0 <= i < acts.len() ==> carries_safe_values(#[trigger] acts[i]),
            Some(e) => e.kind == JsyncErrorKind::InvalidJsonValue && exists|i: int|
                0 <= i < acts.len() && !carries_safe_values(#[trigger] acts[i]),
        },
{
    if encoder::encoding_error(acts) is None {
        assert forall|i: int| 0 <= i < acts.len() implies carries_safe_values(#[trigger] acts[i]) by {
            encoder::lemma_safe_act(acts, acts.len(), i);
            lemma_safe_values(acts[i]);
        }
    } else {
        lemma_unsafe_position(acts, acts.len());
        let at = encoder::first_unsafe_act(acts, acts.len())->0;
        lemma_safe_values(acts[at as int]);
    }
}

proof fn lemma_unsafe_position(acts: Seq<Act>, count: nat)
    requires
        count <= acts.len(),
        encoder::first_unsafe_act(acts, count) is Some,
    ensures
        ({
            let at = encoder::first_unsafe_act(acts, count)->0;
            at < count && encoder::first_unsafe_number(acts[at as int]) is Some
        }),
    decreases count,
{
    if encoder::first_unsafe_act(acts, (count - 1) as nat) is Some {
        lemma_unsafe_position(acts, (count - 1) as nat);
    }
}

proof fn lemma_safe_values(act: Act)
    ensures
        encoder::first_unsafe_number(act) is None <==> carries_safe_values(act),
{
    if let Act::ArrayPatch { edits, .. } = act {
        lemma_safe_edits(edits, edits.len());
    }
}

proof fn lemma_safe_edits(edits: Seq<Edit<Json>>, count: nat)
    requires
        count <= edits.len(),
    ensures
        encoder::first_unsafe_edit(edits, count) is None <==> forall|i: int, j: int|
            0 <= i < count && 0 <= j < edits[i].items.len() ==> json_cbor::first_unsafe(
                #[trigger] edits[i].items[j],
            ) is None,
    decreases count,
{
    if count > 0 {
        let last = edits[count - 1].items;
        lemma_safe_edits(edits, (count - 1) as nat);
        if json_cbor::first_unsafe_item(last, last.len()) is None {
            assert forall|j: int| 0 <= j < last.len() implies json_cbor::first_unsafe(
                #[trigger] last[j],
            ) is None by {
                json_cbor::lemma_safe_item(last, last.len(), j);
            }
        } else if (forall|j: int|
            0 <= j < last.len() ==> json_cbor::first_unsafe(#[trigger] last[j]) is None) {
            json_cbor::lemma_all_items_safe(last, last.len());
        } else {
            let j = choose|j: int|
                0 <= j < last.len() && json_cbor::first_unsafe(#[trigger] last[j]) is Some;
            assert(json_cbor::first_unsafe(edits[count - 1].items[j]) is Some);
        }
        if encoder::first_unsafe_edit(edits, count) is None {
            assert forall|i: int, j: int|
                0 <= i < count && 0 <= j < edits[i].items.len() implies json_cbor::first_unsafe(
                #[trigger] edits[i].items[j],
            ) is None by {
                if i == count - 1 {
                    assert(json_cbor::first_unsafe(last[j]) is None);
                }
            }
        }
    }
}

} // verus!
