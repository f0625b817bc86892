//! Encoding of messages.

use vstd::prelude::*;

use crate::cbor;
use crate::cbor::{Cbor, CborValue};
use crate::error;
use crate::error::{ErrorModel, JsyncError, JsyncErrorKind};
use crate::json;
use crate::json::{Json, JsonValue, Number};
use crate::message::action;
use crate::message::action::{
    Act, Action, ArrayPatchEdit, Edit, PathSegment, Segment, StringPatchEdit,
};
use crate::message::json_cbor;
use crate::message::opcode;
use crate::message::pool;
use crate::message::pool::ProducerPathSegmentPoolTransaction;

verus! {

/// The header of every message: a CBOR tag whose last byte is the version.
pub open spec fn header() -> Seq<u8> {
    seq![0xd9u8, 0xffu8, 0x01u8]
}

/// The metadata tag of the path segments that a message adds to the pool.
pub const METADATA_PATH_SEGMENT_POOL_APPEND: i128 = 0;

/// The path segments of an action, in the order in which they are looked up in the pool.
pub open spec fn segments_of(act: Act) -> Seq<Segment> {
    match act {
        Act::Snapshot { .. } => Seq::empty(),
        Act::Add { path, .. } => path,
        Act::Remove { path } => path,
        Act::Replace { path, .. } => path,
        Act::StringAppend { path, .. } => path,
        Act::StringPrepend { path, .. } => path,
        Act::StringPatch { path, .. } => path,
        Act::ArrayPatch { path, .. } => path,
        Act::Copy { from, path } => from + path,
        Act::Move { from, path } => from + path,
    }
}

/// A pool after the segments of the first `count` actions have been looked up.
pub open spec fn absorb_acts(pool: Seq<Segment>, acts: Seq<Act>, count: nat) -> Seq<Segment>
    decreases count,
{
    if count == 0 || count > acts.len() {
        pool
    } else {
        pool::absorb_path(
            absorb_acts(pool, acts, (count - 1) as nat),
            segments_of(acts[count - 1]),
        )
    }
}

/// A path as the array of its segments' indexes in a pool.
pub open spec fn path_cbor(path: Seq<Segment>, pool: Seq<Segment>) -> Cbor {
    Cbor::Array(Seq::new(path.len(), |i: int| Cbor::Integer(pool.index_of(path[i]))))
}

/// A path segment as it is declared in a message's metadata.
pub open spec fn segment_cbor(segment: Segment) -> Cbor {
    match segment {
        Segment::Key(key) => Cbor::Text(key),
        Segment::Index(index) => Cbor::Integer(index),
    }
}

/// Path segments as they are declared in a message's metadata.
pub open spec fn segments_cbor(segments: Seq<Segment>) -> Cbor {
    Cbor::Array(Seq::new(segments.len(), |i: int| segment_cbor(segments[i])))
}

/// A string patch edit as a CBOR item.
pub open spec fn string_edit_cbor(edit: Edit<char>) -> Cbor {
    Cbor::Array(
        seq![Cbor::Integer(edit.start), Cbor::Integer(edit.delete_count), Cbor::Text(edit.items)],
    )
}

/// An array patch edit as a CBOR item.
pub open spec fn array_edit_cbor(edit: Edit<Json>) -> Cbor {
    Cbor::Array(
        seq![
            Cbor::Integer(edit.start),
            Cbor::Integer(edit.delete_count),
            Cbor::Array(json_cbor::cbors(edit.items)),
        ],
    )
}

/// String patch edits as CBOR items.
pub open spec fn string_edits_cbor(edits: Seq<Edit<char>>) -> Seq<Cbor> {
    Seq::new(edits.len(), |i: int| string_edit_cbor(edits[i]))
}

/// Array patch edits as CBOR items.
pub open spec fn array_edits_cbor(edits: Seq<Edit<Json>>) -> Seq<Cbor> {
    Seq::new(edits.len(), |i: int| array_edit_cbor(edits[i]))
}

/// An action as a CBOR item, with its paths given by a pool.
pub open spec fn act_cbor(act: Act, pool: Seq<Segment>) -> Cbor {
    match act {
        Act::Snapshot { value } => Cbor::Array(
            seq![Cbor::Integer(opcode::OPCODE_SNAPSHOT as int), json_cbor::to_cbor(value)],
        ),
        Act::Add { path, value } => Cbor::Array(
            seq![
                Cbor::Integer(opcode::OPCODE_ADD as int),
                path_cbor(path, pool),
                json_cbor::to_cbor(value),
            ],
        ),
        Act::Remove { path } => Cbor::Array(
            seq![Cbor::Integer(opcode::OPCODE_REMOVE as int), path_cbor(path, pool)],
        ),
        Act::Replace { path, value } => Cbor::Array(
            seq![
                Cbor::Integer(opcode::OPCODE_REPLACE as int),
                path_cbor(path, pool),
                json_cbor::to_cbor(value),
            ],
        ),
        Act::StringAppend { path, text } => Cbor::Array(
            seq![
                Cbor::Integer(opcode::OPCODE_STRING_APPEND as int),
                path_cbor(path, pool),
                Cbor::Text(text),
            ],
        ),
        Act::StringPrepend { path, text } => Cbor::Array(
            seq![
                Cbor::Integer(opcode::OPCODE_STRING_PREPEND as int),
                path_cbor(path, pool),
                Cbor::Text(text),
            ],
        ),
        Act::StringPatch { path, edits } => Cbor::Array(
            seq![
                Cbor::Integer(opcode::OPCODE_STRING_PATCH as int),
                path_cbor(path, pool),
                Cbor::Array(string_edits_cbor(edits)),
            ],
        ),
        Act::ArrayPatch { path, edits } => Cbor::Array(
            seq![
                Cbor::Integer(opcode::OPCODE_ARRAY_PATCH as int),
                path_cbor(path, pool),
                Cbor::Array(array_edits_cbor(edits)),
            ],
        ),
        Act::Copy { from, path } => Cbor::Array(
            seq![
                Cbor::Integer(opcode::OPCODE_COPY as int),
                path_cbor(from, pool),
                path_cbor(path, pool),
            ],
        ),
        Act::Move { from, path } => Cbor::Array(
            seq![
                Cbor::Integer(opcode::OPCODE_MOVE as int),
                path_cbor(from, pool),
                path_cbor(path, pool),
            ],
        ),
    }
}

/// Actions as a CBOR item.
pub open spec fn acts_cbor(acts: Seq<Act>, pool: Seq<Segment>) -> Cbor {
    Cbor::Array(Seq::new(acts.len(), |i: int| act_cbor(acts[i], pool)))
}

/// The paired payload of a message: the metadata, which is the list of the segments that were
/// added to the `base` pool, and the actions.
pub open spec fn paired_payload(acts: Seq<Act>, base: Seq<Segment>, pool: Seq<Segment>) -> Cbor {
    let full = absorb_acts(pool, acts, acts.len());
    Cbor::Array(
        seq![
            Cbor::Array(seq![segments_cbor(full.skip(base.len() as int))]),
            acts_cbor(acts, full),
        ],
    )
}

/// The tagged payload of a message: the added segments under their tag, if there are any, and the
/// actions.
pub open spec fn tagged_payload(acts: Seq<Act>, base: Seq<Segment>, pool: Seq<Segment>) -> Cbor {
    let full = absorb_acts(pool, acts, acts.len());
    let added = full.skip(base.len() as int);
    if added.len() == 0 {
        Cbor::Array(seq![acts_cbor(acts, full)])
    } else {
        Cbor::Array(
            seq![
                Cbor::Integer(METADATA_PATH_SEGMENT_POOL_APPEND as int),
                segments_cbor(added),
                acts_cbor(acts, full),
            ],
        )
    }
}

/// The first number in the first `count` edits that may not stand in a message.
pub open spec fn first_unsafe_edit(edits: Seq<Edit<Json>>, count: nat) -> Option<Number>
    decreases count,
{
    if count == 0 || count > edits.len() {
        None
    } else {
        match first_unsafe_edit(edits, (count - 1) as nat) {
            Some(number) => Some(number),
            None => json_cbor::first_unsafe_item(
                edits[count - 1].items,
                edits[count - 1].items.len(),
            ),
        }
    }
}

/// The first number of an action that may not stand in a message.
pub open spec fn first_unsafe_number(act: Act) -> Option<Number> {
    match act {
        Act::Snapshot { value } => json_cbor::first_unsafe(value),
        Act::Add { value, .. } => json_cbor::first_unsafe(value),
        Act::Replace { value, .. } => json_cbor::first_unsafe(value),
        Act::ArrayPatch { edits, .. } => first_unsafe_edit(edits, edits.len()),
        _ => None,
    }
}

/// The position among the first `count` actions of the first one with such a number.
pub open spec fn first_unsafe_act(acts: Seq<Act>, count: nat) -> Option<nat>
    decreases count,
{
    if count == 0 || count > acts.len() {
        None
    } else {
        match first_unsafe_act(acts, (count - 1) as nat) {
            Some(position) => Some(position),
            None => if first_unsafe_number(acts[count - 1]) is Some {
                Some((count - 1) as nat)
            } else {
                None
            },
        }
    }
}

/// The error for actions that hold a number that may not stand in a message.
pub open spec fn encoding_error(acts: Seq<Act>) -> Option<ErrorModel> {
    match first_unsafe_act(acts, acts.len()) {
        Some(position) => Some(
            json_cbor::unsafe_number_error(first_unsafe_number(acts[position as int])->0),
        ),
        None => None,
    }
}

/// What looking up the segments of actions does to a pool.
pub proof fn lemma_absorb_acts(pool: Seq<Segment>, acts: Seq<Act>, count: nat)
    requires
        count <= acts.len(),
    ensures
        pool::extends(absorb_acts(pool, acts, count), pool),
        pool.no_duplicates() ==> absorb_acts(pool, acts, count).no_duplicates(),
        forall|i: int, j: int|
            0 <= i < count && 0 <= j < segments_of(acts[i]).len() ==> absorb_acts(
                pool,
                acts,
                count,
            ).contains(#[trigger] segments_of(acts[i])[j]),
    decreases count,
{
    if count > 0 {
        let before = absorb_acts(pool, acts, (count - 1) as nat);
        let after = absorb_acts(pool, acts, count);
        lemma_absorb_acts(pool, acts, (count - 1) as nat);
        pool::lemma_absorb_path(before, segments_of(acts[count - 1]));
        pool::lemma_extends_transitive(after, before, pool);
        assert forall|i: int, j: int|
            0 <= i < count && 0 <= j < segments_of(acts[i]).len() implies after.contains(
            #[trigger] segments_of(acts[i])[j],
        ) by {
            if i < count - 1 {
                pool::lemma_extends_contains(after, before, segments_of(acts[i])[j]);
            }
        }
    }
}

/// A path is encoded in the same way by an earlier and by a later pool.
pub proof fn lemma_path_cbor_stable(
    path: Seq<Segment>,
    later: Seq<Segment>,
    earlier: Seq<Segment>,
)
    requires
        pool::extends(later, earlier),
        later.no_duplicates(),
        forall|i: int| 0 <= i < path.len() ==> earlier.contains(#[trigger] path[i]),
    ensures
        path_cbor(path, later) == path_cbor(path, earlier),
{
    let a = path_cbor(path, later)->Array_0;
    let b = path_cbor(path, earlier)->Array_0;
    assert forall|i: int| 0 <= i < path.len() implies a[i] == b[i] by {
        pool::law_indexes_are_stable(later, earlier, path[i]);
    }
    assert(a =~= b);
}

/// An action is encoded in the same way by an earlier and by a later pool.
pub proof fn lemma_act_cbor_stable(act: Act, later: Seq<Segment>, earlier: Seq<Segment>)
    requires
        pool::extends(later, earlier),
        later.no_duplicates(),
        forall|i: int|
            0 <= i < segments_of(act).len() ==> earlier.contains(#[trigger] segments_of(act)[i]),
    ensures
        act_cbor(act, later) == act_cbor(act, earlier),
{
    match act {
        Act::Snapshot { .. } => {},
        Act::Copy { from, path } | Act::Move { from, path } => {
            assert forall|i: int| 0 <= i < from.len() implies earlier.contains(
                #[trigger] from[i],
            ) by {
                assert(segments_of(act)[i] == from[i]);
            }
            assert forall|i: int| 0 <= i < path.len() implies earlier.contains(
                #[trigger] path[i],
            ) by {
                assert(segments_of(act)[from.len() + i] == path[i]);
            }
            lemma_path_cbor_stable(from, later, earlier);
            lemma_path_cbor_stable(path, later, earlier);
        },
        _ => {
            lemma_path_cbor_stable(segments_of(act), later, earlier);
        },
    }
}

/// A safe document is encoded as an item that can be written.
pub proof fn lemma_document_writable(document: Json)
    requires
        json_cbor::first_unsafe(document) is None,
    ensures
        cbor::writable(json_cbor::to_cbor(document)),
    decreases document,
{
    broadcast use {json_cbor::lemma_array_cbor, json_cbor::lemma_object_cbor};

    match document {
        Json::Array(items) => {
            assert forall|i: int| 0 <= i < items.len() implies cbor::writable(
                #[trigger] json_cbor::cbors(items)[i],
            ) by {
                json_cbor::lemma_safe_item(items, items.len(), i);
                json::lemma_item_smaller(items, i);
                lemma_document_writable(items[i]);
            }
        },
        Json::Object(entries) => {
            assert forall|i: int| 0 <= i < entries.len() implies cbor::writable(
                (#[trigger] json_cbor::cbor_entries(entries)[i]).0,
            ) && cbor::writable(json_cbor::cbor_entries(entries)[i].1) by {
                json_cbor::lemma_safe_entry(entries, entries.len(), i);
                json::lemma_entry_smaller(entries, i);
                lemma_document_writable(entries[i].1);
            }
        },
        _ => {},
    }
}

/// Whether the numbers of an action fit an item head: those of its paths and edits.
pub open spec fn positions_fit(act: Act) -> bool {
    match act {
        Act::StringPatch { edits, .. } => forall|i: int|
            0 <= i < edits.len() ==> 0 <= (#[trigger] edits[i]).start < cbor::INTEGER_LIMIT && 0
                <= edits[i].delete_count < cbor::INTEGER_LIMIT,
        Act::ArrayPatch { edits, .. } => forall|i: int|
            0 <= i < edits.len() ==> 0 <= (#[trigger] edits[i]).start < cbor::INTEGER_LIMIT && 0
                <= edits[i].delete_count < cbor::INTEGER_LIMIT,
        _ => true,
    }
}

proof fn lemma_path_writable(path: Seq<Segment>, pool: Seq<Segment>)
    requires
        pool.len() < cbor::INTEGER_LIMIT,
        forall|i: int| 0 <= i < path.len() ==> pool.contains(#[trigger] path[i]),
    ensures
        cbor::writable(path_cbor(path, pool)),
{
    let items = path_cbor(path, pool)->Array_0;
    assert forall|i: int| 0 <= i < items.len() implies cbor::writable(#[trigger] items[i]) by {
        assert(pool.contains(path[i]));
    }
}

/// The values of a safe edit are safe.
pub proof fn lemma_safe_edit(edits: Seq<Edit<Json>>, count: nat, i: int)
    requires
        0 <= i < count <= edits.len(),
        first_unsafe_edit(edits, count) is None,
    ensures
        json_cbor::first_unsafe_item(edits[i].items, edits[i].items.len()) is None,
    decreases count,
{
    if i < count - 1 {
        lemma_safe_edit(edits, (count - 1) as nat, i);
    }
}

/// A safe action is encoded as an item that can be written.
pub proof fn lemma_act_writable(act: Act, pool: Seq<Segment>)
    requires
        first_unsafe_number(act) is None,
        positions_fit(act),
        pool.len() < cbor::INTEGER_LIMIT,
        forall|i: int|
            0 <= i < segments_of(act).len() ==> pool.contains(#[trigger] segments_of(act)[i]),
    ensures
        cbor::writable(act_cbor(act, pool)),
{
    match act {
        Act::Snapshot { value } => {
            lemma_document_writable(value);
        },
        Act::Copy { from, path } | Act::Move { from, path } => {
            assert forall|i: int| 0 <= i < from.len() implies pool.contains(
                #[trigger] from[i],
            ) by {
                assert(segments_of(act)[i] == from[i]);
            }
            assert forall|i: int| 0 <= i < path.len() implies pool.contains(
                #[trigger] path[i],
            ) by {
                assert(segments_of(act)[from.len() + i] == path[i]);
            }
            lemma_path_writable(from, pool);
            lemma_path_writable(path, pool);
        },
        Act::Add { path, value } | Act::Replace { path, value } => {
            lemma_path_writable(segments_of(act), pool);
            lemma_document_writable(value);
        },
        Act::StringPatch { path, edits } => {
            lemma_path_writable(segments_of(act), pool);
            let items = string_edits_cbor(edits);
            assert forall|i: int| 0 <= i < items.len() implies cbor::writable(
                #[trigger] items[i],
            ) by {
                lemma_three_writable(string_edit_cbor(edits[i])->Array_0);
            }
            assert(cbor::writable(Cbor::Array(items)));
        },
        Act::ArrayPatch { path, edits } => {
            lemma_path_writable(segments_of(act), pool);
            let items = array_edits_cbor(edits);
            assert forall|i: int| 0 <= i < items.len() implies cbor::writable(
                #[trigger] items[i],
            ) by {
                let values = edits[i].items;
                lemma_safe_edit(edits, edits.len(), i);
                assert forall|j: int| 0 <= j < values.len() implies cbor::writable(
                    #[trigger] json_cbor::cbors(values)[j],
                ) by {
                    json_cbor::lemma_safe_item(values, values.len(), j);
                    lemma_document_writable(values[j]);
                }
                assert(cbor::writable(Cbor::Array(json_cbor::cbors(values))));
                lemma_three_writable(array_edit_cbor(edits[i])->Array_0);
            }
            assert(cbor::writable(Cbor::Array(items)));
        },
        Act::Remove { path } => {
            lemma_path_writable(segments_of(act), pool);
        },
        Act::StringAppend { path, .. } | Act::StringPrepend { path, .. } => {
            lemma_path_writable(segments_of(act), pool);
        },
    }
    let elements = act_cbor(act, pool)->Array_0;
    if elements.len() == 3 {
        lemma_three_writable(elements);
    } else {
        assert forall|i: int| 0 <= i < elements.len() implies cbor::writable(
            #[trigger] elements[i],
        ) by {
            if i == 0 {
            } else {
                assert(i == 1);
            }
        }
    }
}

proof fn lemma_three_writable(elements: Seq<Cbor>)
    requires
        elements.len() == 3,
        cbor::writable(elements[0]),
        cbor::writable(elements[1]),
        cbor::writable(elements[2]),
    ensures
        cbor::writable(Cbor::Array(elements)),
{
    assert forall|i: int| 0 <= i < elements.len() implies cbor::writable(
        #[trigger] elements[i],
    ) by {
        assert(i == 0 || i == 1 || i == 2);
    }
}

/// Encodes a path as the array of its segments' indexes in the pool.
fn pooled_path_to_cbor(
    txn: &mut ProducerPathSegmentPoolTransaction<'_>,
    path: &[PathSegment],
) -> (item: CborValue)
    requires
        old(txn).well_formed(),
    ensures
        final(txn).well_formed(),
        final(txn).total() == pool::absorb_path(old(txn).total(), action::path_view(path@)),
        item@ == path_cbor(action::path_view(path@), final(txn).total()),
        final(txn).pool@ == old(txn).pool@,
        *final(final(txn).pool) == *final(old(txn).pool),
{
    broadcast use cbor::lemma_cbor_array_view;

    let ghost segments = action::path_view(path@);
    let ghost start = txn.total();
    let mut encoded: Vec<CborValue> = Vec::new();
    let mut i: usize = 0;
    assert(segments.take(0) =~= Seq::empty());
    assert(cbor::cbor_views(encoded@) =~= path_cbor(segments.take(0), start)->Array_0);
    while i < path.len()
        invariant
            i <= path@.len(),
            segments == action::path_view(path@),
            txn.well_formed(),
            txn.total() == pool::absorb_path(start, segments.take(i as int)),
            cbor::cbor_views(encoded@) == path_cbor(
                segments.take(i as int),
                txn.total(),
            )->Array_0,
            txn.pool@ == old(txn).pool@,
            *final(txn.pool) == *final(old(txn).pool),
        decreases path@.len() - i,
    {
        let ghost before = txn.total();
        let ghost done = segments.take(i as int);
        let ghost views = cbor::cbor_views(encoded@);
        let index: usize = txn.index_for(&path[i]);
        encoded.push(CborValue::Integer(index as i128));
        i = i + 1;
        proof {
            let next = segments.take(i as int);
            assert(next.drop_last() =~= done);
            assert(next.last() == path@[i - 1]@);
            pool::lemma_absorb(before, path@[i - 1]@);
            pool::lemma_absorb_path(start, done);
            lemma_path_cbor_stable(done, txn.total(), before);
            assert(cbor::cbor_views(encoded@) =~= views.push(Cbor::Integer(index as int)));
            assert(cbor::cbor_views(encoded@) =~= path_cbor(next, txn.total())->Array_0);
        }
    }
    assert(segments.take(i as int) =~= segments);
    CborValue::Array(encoded)
}

fn string_edits_to_cbor(edits: &Vec<StringPatchEdit>) -> (item: CborValue)
    ensures
        item@ == Cbor::Array(string_edits_cbor(action::string_edit_views(edits@))),
{
    broadcast use cbor::lemma_cbor_array_view;

    let ghost views = action::string_edit_views(edits@);
    let ghost target = string_edits_cbor(views);
    let mut encoded: Vec<CborValue> = Vec::new();
    let mut i: usize = 0;
    while i < edits.len()
        invariant
            i <= edits@.len(),
            views == action::string_edit_views(edits@),
            target == string_edits_cbor(views),
            cbor::cbor_views(encoded@) == target.take(i as int),
        decreases edits@.len() - i,
    {
        let ghost before = cbor::cbor_views(encoded@);
        assert(views[i as int] == edits@[i as int]@);
        let item = triple(
            integer(edits[i].start as i128),
            integer(edits[i].delete_count as i128),
            CborValue::Text(edits[i].text.clone()),
        );
        assert(item@ == target[i as int]);
        encoded.push(item);
        i = i + 1;
        assert(cbor::cbor_views(encoded@) =~= before.push(item@));
        assert(cbor::cbor_views(encoded@) =~= target.take(i as int));
    }
    assert(target.take(i as int) =~= target);
    CborValue::Array(encoded)
}

fn values_to_cbor(values: &Vec<JsonValue>) -> (result: Result<CborValue, JsyncError>)
    ensures
        match result {
            Ok(item) => {
                &&& json_cbor::first_unsafe_item(json::json_views(values@), values@.len()) is None
                &&& item@ == Cbor::Array(json_cbor::cbors(json::json_views(values@)))
            },
            Err(e) => {
                let number = json_cbor::first_unsafe_item(
                    json::json_views(values@),
                    values@.len(),
                );
                &&& number is Some
                &&& e@ == json_cbor::unsafe_number_error(number->0)
            },
        },
{
    broadcast use cbor::lemma_cbor_array_view;

    let ghost items = json::json_views(values@);
    let mut encoded: Vec<CborValue> = Vec::new();
    let mut i: usize = 0;
    assert(cbor::cbor_views(encoded@) =~= json_cbor::cbors(items).take(0));
    while i < values.len()
        invariant
            i <= values@.len(),
            items == json::json_views(values@),
            json_cbor::first_unsafe_item(items, i as nat) is None,
            cbor::cbor_views(encoded@) == json_cbor::cbors(items).take(i as int),
        decreases values@.len() - i,
    {
        assert(items[i as int] == values@[i as int]@);
        match json_cbor::json_to_cbor(&values[i]) {
            Ok(item) => {
                let ghost before = cbor::cbor_views(encoded@);
                encoded.push(item);
                i = i + 1;
                assert(cbor::cbor_views(encoded@) =~= before.push(item@));
                assert(cbor::cbor_views(encoded@) =~= json_cbor::cbors(items).take(i as int));
            },
            Err(e) => {
                proof {
                    json_cbor::lemma_first_unsafe_item(items, i as nat + 1);
                }
                return Err(e);
            },
        }
    }
    assert(json_cbor::cbors(items).take(i as int) =~= json_cbor::cbors(items));
    Ok(CborValue::Array(encoded))
}

/// The first such number of the first edits is that of all edits.
pub proof fn lemma_first_unsafe_edit(edits: Seq<Edit<Json>>, count: nat)
    requires
        count <= edits.len(),
        first_unsafe_edit(edits, count) is Some,
    ensures
        first_unsafe_edit(edits, edits.len()) == first_unsafe_edit(edits, count),
    decreases edits.len() - count,
{
    if count < edits.len() {
        lemma_first_unsafe_edit(edits, count + 1);
    }
}

fn array_edits_to_cbor(edits: &Vec<ArrayPatchEdit>) -> (result: Result<CborValue, JsyncError>)
    ensures
        match result {
            Ok(item) => {
                &&& first_unsafe_edit(action::array_edit_views(edits@), edits@.len()) is None
                &&& item@ == Cbor::Array(array_edits_cbor(action::array_edit_views(edits@)))
            },
            Err(e) => {
                let number = first_unsafe_edit(action::array_edit_views(edits@), edits@.len());
                &&& number is Some
                &&& e@ == json_cbor::unsafe_number_error(number->0)
            },
        },
{
    broadcast use cbor::lemma_cbor_array_view;

    let ghost views = action::array_edit_views(edits@);
    let ghost target = array_edits_cbor(views);
    let mut encoded: Vec<CborValue> = Vec::new();
    let mut i: usize = 0;
    while i < edits.len()
        invariant
            i <= edits@.len(),
            views == action::array_edit_views(edits@),
            target == array_edits_cbor(views),
            first_unsafe_edit(views, i as nat) is None,
            cbor::cbor_views(encoded@) == target.take(i as int),
        decreases edits@.len() - i,
    {
        let ghost before = cbor::cbor_views(encoded@);
        assert(views[i as int] == edits@[i as int]@);
        assert(views[i as int].items.len() == edits@[i as int].values@.len());
        match values_to_cbor(&edits[i].values) {
            Ok(values) => {
                let item = triple(
                    integer(edits[i].start as i128),
                    integer(edits[i].delete_count as i128),
                    values,
                );
                assert(item@ == target[i as int]);
                encoded.push(item);
                i = i + 1;
                assert(cbor::cbor_views(encoded@) =~= before.push(item@));
                assert(cbor::cbor_views(encoded@) =~= target.take(i as int));
            },
            Err(e) => {
                proof {
                    lemma_first_unsafe_edit(views, i as nat + 1);
                }
                return Err(e);
            },
        }
    }
    assert(target.take(i as int) =~= target);
    Ok(CborValue::Array(encoded))
}

fn pair(first: CborValue, second: CborValue) -> (item: CborValue)
    ensures
        item@ == Cbor::Array(seq![first@, second@]),
{
    broadcast use cbor::lemma_cbor_array_view;

    let mut elements: Vec<CborValue> = Vec::new();
    elements.push(first);
    elements.push(second);
    assert(cbor::cbor_views(elements@) =~= seq![first@, second@]);
    CborValue::Array(elements)
}

fn triple(first: CborValue, second: CborValue, third: CborValue) -> (item: CborValue)
    ensures
        item@ == Cbor::Array(seq![first@, second@, third@]),
{
    broadcast use cbor::lemma_cbor_array_view;

    let mut elements: Vec<CborValue> = Vec::new();
    elements.push(first);
    elements.push(second);
    elements.push(third);
    assert(cbor::cbor_views(elements@) =~= seq![first@, second@, third@]);
    CborValue::Array(elements)
}

fn integer(value: i128) -> (item: CborValue)
    ensures
        item@ == Cbor::Integer(value as int),
{
    CborValue::Integer(value)
}

/// Looking up one path after another is looking up both together.
pub proof fn lemma_absorb_two(pool: Seq<Segment>, from: Seq<Segment>, path: Seq<Segment>)
    ensures
        pool::absorb_path(pool::absorb_path(pool, from), path) == pool::absorb_path(
            pool,
            from + path,
        ),
    decreases path.len(),
{
    if path.len() == 0 {
        assert(from + path =~= from);
    } else {
        lemma_absorb_two(pool, from, path.drop_last());
        assert((from + path).drop_last() =~= from + path.drop_last());
    }
}

/// Encodes an action, and looks up its path segments in the pool.
fn action_to_cbor(
    action: &Action,
    txn: &mut ProducerPathSegmentPoolTransaction<'_>,
) -> (result: Result<CborValue, JsyncError>)
    requires
        old(txn).well_formed(),
    ensures
        final(txn).well_formed(),
        final(txn).total() == pool::absorb_path(old(txn).total(), segments_of(action@)),
        match result {
            Ok(item) => {
                &&& first_unsafe_number(action@) is None
                &&& item@ == act_cbor(action@, final(txn).total())
            },
            Err(e) => {
                &&& first_unsafe_number(action@) is Some
                &&& e@ == json_cbor::unsafe_number_error(first_unsafe_number(action@)->0)
            },
        },
        final(txn).pool@ == old(txn).pool@,
        *final(final(txn).pool) == *final(old(txn).pool),
{
    match action {
        Action::Snapshot { value } => match json_cbor::json_to_cbor(value) {
            Ok(value) => Ok(pair(integer(opcode::OPCODE_SNAPSHOT), value)),
            Err(e) => Err(e),
        },
        Action::Add { path, value } => {
            let path = pooled_path_to_cbor(txn, path.as_slice());
            match json_cbor::json_to_cbor(value) {
                Ok(value) => Ok(triple(integer(opcode::OPCODE_ADD), path, value)),
                Err(e) => Err(e),
            }
        },
        Action::Remove { path } => {
            let path = pooled_path_to_cbor(txn, path.as_slice());
            Ok(pair(integer(opcode::OPCODE_REMOVE), path))
        },
        Action::Replace { path, value } => {
            let path = pooled_path_to_cbor(txn, path.as_slice());
            match json_cbor::json_to_cbor(value) {
                Ok(value) => Ok(triple(integer(opcode::OPCODE_REPLACE), path, value)),
                Err(e) => Err(e),
            }
        },
        Action::StringAppend { path, text } => {
            let path = pooled_path_to_cbor(txn, path.as_slice());
            Ok(triple(integer(opcode::OPCODE_STRING_APPEND), path, CborValue::Text(text.clone())))
        },
        Action::StringPrepend { path, text } => {
            let path = pooled_path_to_cbor(txn, path.as_slice());
            Ok(triple(integer(opcode::OPCODE_STRING_PREPEND), path, CborValue::Text(text.clone())))
        },
        Action::StringPatch { path, edits } => {
            let path = pooled_path_to_cbor(txn, path.as_slice());
            Ok(triple(integer(opcode::OPCODE_STRING_PATCH), path, string_edits_to_cbor(edits)))
        },
        Action::ArrayPatch { path, edits } => {
            let path = pooled_path_to_cbor(txn, path.as_slice());
            match array_edits_to_cbor(edits) {
                Ok(edits) => Ok(triple(integer(opcode::OPCODE_ARRAY_PATCH), path, edits)),
                Err(e) => Err(e),
            }
        },
        Action::Copy { from, path } => {
            let (from, path) = two_paths_to_cbor(txn, from.as_slice(), path.as_slice());
            Ok(triple(integer(opcode::OPCODE_COPY), from, path))
        },
        Action::Move { from, path } => {
            let (from, path) = two_paths_to_cbor(txn, from.as_slice(), path.as_slice());
            Ok(triple(integer(opcode::OPCODE_MOVE), from, path))
        },
    }
}

fn two_paths_to_cbor(
    txn: &mut ProducerPathSegmentPoolTransaction<'_>,
    from: &[PathSegment],
    path: &[PathSegment],
) -> (items: (CborValue, CborValue))
    requires
        old(txn).well_formed(),
    ensures
        final(txn).well_formed(),
        final(txn).total() == pool::absorb_path(
            old(txn).total(),
            action::path_view(from@) + action::path_view(path@),
        ),
        items.0@ == path_cbor(action::path_view(from@), final(txn).total()),
        items.1@ == path_cbor(action::path_view(path@), final(txn).total()),
        final(txn).pool@ == old(txn).pool@,
        *final(final(txn).pool) == *final(old(txn).pool),
{
    let ghost start = txn.total();
    let first = pooled_path_to_cbor(txn, from);
    let ghost middle = txn.total();
    let second = pooled_path_to_cbor(txn, path);
    proof {
        lemma_absorb_two(start, action::path_view(from@), action::path_view(path@));
        pool::lemma_absorb_path(start, action::path_view(from@));
        pool::lemma_absorb_path(middle, action::path_view(path@));
        lemma_path_cbor_stable(action::path_view(from@), txn.total(), middle);
    }
    (first, second)
}

/// What became of the pool when actions were encoded: the segments of all of them have been
/// looked up, or those of the actions up to the first that cannot be encoded.
pub open spec fn pool_after(pool: Seq<Segment>, acts: Seq<Act>) -> Seq<Segment> {
    match first_unsafe_act(acts, acts.len()) {
        Some(position) => absorb_acts(pool, acts, position + 1),
        None => absorb_acts(pool, acts, acts.len()),
    }
}

/// Whether a message consists of the header and the encoding of a payload, from which the payload
/// can be read back.
pub open spec fn carries(bytes: Seq<u8>, payload: Cbor) -> bool {
    &&& bytes.len() >= 3
    &&& bytes.take(3) == header()
    &&& cbor::cbor_parse(bytes.skip(3)) == Some((payload, bytes.len() - 3))
}

/// The first such action of the first actions is that of all actions.
pub proof fn lemma_first_unsafe_act(acts: Seq<Act>, count: nat)
    requires
        count <= acts.len(),
        first_unsafe_act(acts, count) is Some,
    ensures
        first_unsafe_act(acts, acts.len()) == first_unsafe_act(acts, count),
    decreases acts.len() - count,
{
    if count < acts.len() {
        lemma_first_unsafe_act(acts, count + 1);
    }
}

/// Each of several safe actions is safe.
pub proof fn lemma_safe_act(acts: Seq<Act>, count: nat, i: int)
    requires
        0 <= i < count <= acts.len(),
        first_unsafe_act(acts, count) is None,
    ensures
        first_unsafe_number(acts[i]) is None,
    decreases count,
{
    if i < count - 1 {
        lemma_safe_act(acts, (count - 1) as nat, i);
    }
}

/// The error for a single action.
pub proof fn lemma_single_error(act: Act)
    ensures
        encoding_error(seq![act]) == match first_unsafe_number(act) {
            Some(number) => Some(json_cbor::unsafe_number_error(number)),
            None => None,
        },
{
    let acts = seq![act];
    assert(acts[0] == act);
    assert(first_unsafe_act(acts, 0) is None);
    assert(first_unsafe_act(acts, 1) == if first_unsafe_number(act) is Some {
        Some(0nat)
    } else {
        None
    });
}

/// Whether no action holds a number that may not stand in a message.
pub open spec fn all_safe(acts: Seq<Act>) -> bool {
    forall|i: int| 0 <= i < acts.len() ==> first_unsafe_number(#[trigger] acts[i]) is None
}

/// Safe actions can be encoded.
pub proof fn lemma_all_safe(acts: Seq<Act>, count: nat)
    requires
        count <= acts.len(),
        all_safe(acts),
    ensures
        first_unsafe_act(acts, count) is None,
    decreases count,
{
    if count > 0 {
        lemma_all_safe(acts, (count - 1) as nat);
        assert(first_unsafe_number(acts[count - 1]) is None);
    }
}

proof fn lemma_positions_fit(action: Action)
    ensures
        positions_fit(action@),
{
    match action {
        Action::StringPatch { path, edits } => {
            let views = action::string_edit_views(edits@);
            assert forall|i: int| 0 <= i < views.len() implies 0 <= (#[trigger] views[i]).start
                < cbor::INTEGER_LIMIT && 0 <= views[i].delete_count < cbor::INTEGER_LIMIT by {
                assert(views[i] == edits@[i]@);
            }
        },
        Action::ArrayPatch { path, edits } => {
            let views = action::array_edit_views(edits@);
            assert forall|i: int| 0 <= i < views.len() implies 0 <= (#[trigger] views[i]).start
                < cbor::INTEGER_LIMIT && 0 <= views[i].delete_count < cbor::INTEGER_LIMIT by {
                assert(views[i] == edits@[i]@);
            }
        },
        _ => {},
    }
}

/// Encodes actions, and looks up their path segments in the pool.
fn actions_to_cbor(
    actions: &[Action],
    txn: &mut ProducerPathSegmentPoolTransaction<'_>,
) -> (result: Result<CborValue, JsyncError>)
    requires
        old(txn).well_formed(),
    ensures
        final(txn).well_formed(),
        final(txn).total() == pool_after(old(txn).total(), action::action_views(actions@)),
        match result {
            Ok(item) => {
                &&& encoding_error(action::action_views(actions@)) is None
                &&& item@ == acts_cbor(action::action_views(actions@), final(txn).total())
                &&& cbor::writable(item@)
            },
            Err(e) => encoding_error(action::action_views(actions@)) == Some(e@),
        },
        final(txn).pool@ == old(txn).pool@,
        *final(final(txn).pool) == *final(old(txn).pool),
{
    broadcast use cbor::lemma_cbor_array_view;

    let ghost acts = action::action_views(actions@);
    let ghost start = txn.total();
    let mut encoded: Vec<CborValue> = Vec::new();
    let mut i: usize = 0;
    while i < actions.len()
        invariant
            i <= actions@.len(),
            acts == action::action_views(actions@),
            start == old(txn).total(),
            start.no_duplicates(),
            txn.well_formed(),
            txn.total() == absorb_acts(start, acts, i as nat),
            first_unsafe_act(acts, i as nat) is None,
            encoded@.len() == i,
            forall|j: int|
                0 <= j < i ==> (#[trigger] encoded@[j])@ == act_cbor(acts[j], txn.total()),
            txn.pool@ == old(txn).pool@,
            *final(txn.pool) == *final(old(txn).pool),
        decreases actions@.len() - i,
    {
        let ghost before = txn.total();
        let ghost views = encoded@;
        assert(acts[i as int] == actions@[i as int]@);
        match action_to_cbor(&actions[i], txn) {
            Ok(item) => {
                proof {
                    lemma_absorb_acts(start, acts, i as nat);
                    pool::lemma_absorb_path(before, segments_of(acts[i as int]));
                    assert forall|j: int| 0 <= j < i implies (#[trigger] views[j])@ == act_cbor(
                        acts[j],
                        txn.total(),
                    ) by {
                        lemma_act_cbor_stable(acts[j], txn.total(), before);
                    }
                }
                encoded.push(item);
                i = i + 1;
            },
            Err(e) => {
                proof {
                    lemma_first_unsafe_act(acts, i as nat + 1);
                    assert(first_unsafe_act(acts, acts.len()) == Some(i as nat));
                    assert(absorb_acts(start, acts, i as nat + 1) == txn.total());
                }
                return Err(e);
            },
        }
    }
    let _base: usize = txn.pool.len();
    let _appended: usize = txn.appended.len();
    proof {
        let items = acts_cbor(acts, txn.total())->Array_0;
        assert(cbor::cbor_views(encoded@) =~= items);
        lemma_absorb_acts(start, acts, acts.len());
        assert forall|j: int| 0 <= j < items.len() implies cbor::writable(#[trigger] items[j]) by {
            lemma_positions_fit(actions@[j]);
            lemma_safe_act(acts, acts.len(), j);
            lemma_act_writable(acts[j], txn.total());
        }
        assert(cbor::writable(acts_cbor(acts, txn.total())));
    }
    Ok(CborValue::Array(encoded))
}

/// Encodes path segments as they are declared in a message's metadata.
fn segments_to_cbor(segments: &[PathSegment]) -> (item: CborValue)
    ensures
        item@ == segments_cbor(action::path_view(segments@)),
        cbor::writable(item@),
{
    broadcast use cbor::lemma_cbor_array_view;

    let ghost views = action::path_view(segments@);
    let mut encoded: Vec<CborValue> = Vec::new();
    let mut i: usize = 0;
    while i < segments.len()
        invariant
            i <= segments@.len(),
            views == action::path_view(segments@),
            encoded@.len() == i,
            forall|j: int|
                0 <= j < i ==> (#[trigger] encoded@[j])@ == segment_cbor(views[j])
                    && cbor::writable(encoded@[j]@),
        decreases segments@.len() - i,
    {
        assert(views[i as int] == segments@[i as int]@);
        let item = match &segments[i] {
            PathSegment::Key(key) => CborValue::Text(key.clone()),
            PathSegment::Index(index) => CborValue::Integer(*index as i128),
        };
        encoded.push(item);
        i = i + 1;
    }
    proof {
        let items = segments_cbor(views)->Array_0;
        assert(cbor::cbor_views(encoded@) =~= items);
        assert forall|j: int| 0 <= j < items.len() implies cbor::writable(#[trigger] items[j]) by {
            assert(encoded@[j]@ == items[j]);
        }
        assert(cbor::writable(segments_cbor(views)));
    }
    CborValue::Array(encoded)
}

/// Encodes a payload behind the header.
fn payload_to_bytes(payload: &CborValue) -> (result: Result<Vec<u8>, JsyncError>)
    requires
        cbor::writable(payload@),
    ensures
        result is Ok,
        result matches Ok(bytes) ==> {
            &&& bytes@ == header() + cbor::cbor_bytes(payload@)
            &&& cbor::nested(payload@, cbor::NESTING_LIMIT as int) ==> carries(bytes@, payload@)
            &&& bytes@.len() <= 3 + cbor::cbor_size(payload@)
            &&& cbor::float_free(payload@) ==> bytes@.len() == 3 + cbor::cbor_size(payload@)
        },
{
    let mut bytes: Vec<u8> = Vec::new();
    bytes.push(0xd9);
    bytes.push(0xff);
    bytes.push(0x01);
    assert(bytes@ =~= header());
    match cbor::encode_item(payload, &mut bytes) {
        Ok(_) => {
            proof {
                assert(bytes@.take(3) =~= header());
                assert(bytes@.skip(3) =~= cbor::cbor_bytes(payload@));
            }
            Ok(bytes)
        },
        Err(source) => Err(
            JsyncError::new(
                JsyncErrorKind::ApplyFailed,
                "The Jsync message could not be encoded.",
            ).with_source(source),
        ),
    }
}

proof fn lemma_pair_writable(first: Cbor, second: Cbor)
    requires
        cbor::writable(first),
        cbor::writable(second),
    ensures
        cbor::writable(Cbor::Array(seq![first, second])),
{
    let elements = seq![first, second];
    assert forall|i: int| 0 <= i < elements.len() implies cbor::writable(
        #[trigger] elements[i],
    ) by {
        assert(i == 0 || i == 1);
    }
}

fn single(item: CborValue) -> (array: CborValue)
    requires
        cbor::writable(item@),
    ensures
        array@ == Cbor::Array(seq![item@]),
        cbor::writable(array@),
{
    broadcast use cbor::lemma_cbor_array_view;

    let mut elements: Vec<CborValue> = Vec::new();
    elements.push(item);
    assert(cbor::cbor_views(elements@) =~= seq![item@]);
    assert(cbor::writable(seq![item@][0]));
    CborValue::Array(elements)
}

/// Encodes a message in the paired layout: `[[added segments], actions]`.
pub fn to_paired_bytes(
    actions: &[Action],
    txn: &mut ProducerPathSegmentPoolTransaction<'_>,
) -> (result: Result<Vec<u8>, JsyncError>)
    requires
        old(txn).well_formed(),
    ensures
        final(txn).well_formed(),
        final(txn).total() == pool_after(old(txn).total(), action::action_views(actions@)),
        ({
            let acts = action::action_views(actions@);
            let payload = paired_payload(acts, old(txn).pool@, old(txn).total());
            match result {
                Ok(bytes) => {
                    &&& encoding_error(acts) is None
                    &&& bytes@ == header() + cbor::cbor_bytes(payload)
                    &&& cbor::nested(payload, cbor::NESTING_LIMIT as int) ==> carries(
                        bytes@,
                        payload,
                    )
                    &&& bytes@.len() <= 3 + cbor::cbor_size(payload)
                    &&& cbor::float_free(payload) ==> bytes@.len() == 3 + cbor::cbor_size(payload)
                },
                Err(e) => encoding_error(acts) == Some(e@),
            }
        }),
        final(txn).pool@ == old(txn).pool@,
        *final(final(txn).pool) == *final(old(txn).pool),
{
    match actions_to_cbor(actions, txn) {
        Ok(encoded) => {
            let added = segments_to_cbor(txn.appended_segments());
            proof {
                assert(txn.total().skip(txn.pool@.len() as int) =~= txn.appended@);
            }
            let metadata = single(added);
            proof {
                lemma_pair_writable(metadata@, encoded@);
            }
            payload_to_bytes(&pair(metadata, encoded))
        },
        Err(e) => Err(e),
    }
}

/// Encodes a message in the tagged layout: `[0, added segments, actions]`, or `[actions]` where no
/// segment was added.
pub fn to_tagged_bytes(
    actions: &[Action],
    txn: &mut ProducerPathSegmentPoolTransaction<'_>,
) -> (result: Result<Vec<u8>, JsyncError>)
    requires
        old(txn).well_formed(),
    ensures
        final(txn).well_formed(),
        final(txn).total() == pool_after(old(txn).total(), action::action_views(actions@)),
        ({
            let acts = action::action_views(actions@);
            let payload = tagged_payload(acts, old(txn).pool@, old(txn).total());
            match result {
                Ok(bytes) => {
                    &&& encoding_error(acts) is None
                    &&& bytes@ == header() + cbor::cbor_bytes(payload)
                    &&& cbor::nested(payload, cbor::NESTING_LIMIT as int) ==> carries(
                        bytes@,
                        payload,
                    )
                    &&& bytes@.len() <= 3 + cbor::cbor_size(payload)
                    &&& cbor::float_free(payload) ==> bytes@.len() == 3 + cbor::cbor_size(payload)
                },
                Err(e) => encoding_error(acts) == Some(e@),
            }
        }),
        final(txn).pool@ == old(txn).pool@,
        *final(final(txn).pool) == *final(old(txn).pool),
{
    match actions_to_cbor(actions, txn) {
        Ok(encoded) => {
            let segments = txn.appended_segments();
            proof {
                assert(txn.total().skip(txn.pool@.len() as int) =~= txn.appended@);
            }
            let payload = if segments.len() == 0 {
                single(encoded)
            } else {
                let tag = integer(METADATA_PATH_SEGMENT_POOL_APPEND);
                let added = segments_to_cbor(segments);
                proof {
                    lemma_three_writable(seq![tag@, added@, encoded@]);
                }
                triple(tag, added, encoded)
            };
            payload_to_bytes(&payload)
        },
        Err(e) => Err(e),
    }
}

} // verus!
