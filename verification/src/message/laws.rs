//! What holds of encoding and decoding together.

use vstd::prelude::*;

use crate::cbor;
use crate::cbor::Cbor;
use crate::error;
use crate::error::ErrorModel;
use crate::json;
use crate::json::Json;
use crate::message::action;
use crate::message::action::{Act, Edit, PathSegment, Segment};
use crate::message::decoder;
use crate::message::decoder::Notation;
use crate::message::encoder;
use crate::message::json_cbor;
use crate::message::pool;

verus! {

/// Whether the indexes of path segments are machine numbers.
pub open spec fn representable_path(path: Seq<Segment>) -> bool {
    forall|i: int|
        0 <= i < path.len() ==> (#[trigger] path[i] matches Segment::Index(n) ==> 0 <= n
            <= usize::MAX)
}

/// The indexes of path segments in memory are machine numbers.
pub proof fn lemma_in_memory_path(path: Seq<PathSegment>)
    ensures
        representable_path(action::path_view(path)),
{
    let view = action::path_view(path);
    assert forall|i: int| 0 <= i < view.len() implies (#[trigger] view[i] matches Segment::Index(n)
        ==> 0 <= n <= usize::MAX) by {
        assert(view[i] == path[i]@);
    }
}

/// Whether the positions of an edit are machine numbers.
pub open spec fn representable_edit<T>(edit: Edit<T>) -> bool {
    0 <= edit.start <= usize::MAX && 0 <= edit.delete_count <= usize::MAX
}

/// Whether an array patch edit can be held in memory.
pub open spec fn representable_array_edit(edit: Edit<Json>) -> bool {
    &&& representable_edit(edit)
    &&& forall|j: int| 0 <= j < edit.items.len() ==> json::valid(#[trigger] edit.items[j])
}

/// Whether an action can be held in memory: positions are machine numbers, and the properties of
/// objects stand in key order.
pub open spec fn representable(act: Act) -> bool {
    &&& representable_path(encoder::segments_of(act))
    &&& match act {
        Act::Snapshot { value } => json::valid(value),
        Act::Add { value, .. } => json::valid(value),
        Act::Replace { value, .. } => json::valid(value),
        Act::StringPatch { edits, .. } => forall|i: int|
            0 <= i < edits.len() ==> representable_edit(#[trigger] edits[i]),
        Act::ArrayPatch { edits, .. } => forall|i: int|
            0 <= i < edits.len() ==> representable_array_edit(#[trigger] edits[i]),
        _ => true,
    }
}

/// Whether an array patch has edits, each of which deletes or inserts values. The decoder accepts
/// no other array patch.
pub open spec fn array_patch_has_effect(act: Act) -> bool {
    act matches Act::ArrayPatch { edits, .. } ==> edits.len() > 0 && forall|i: int|
        0 <= i < edits.len() ==> (#[trigger] edits[i]).delete_count > 0 || edits[i].items.len() > 0
}

proof fn lemma_path_round_trip(path: Seq<Segment>, pool: Seq<Segment>)
    requires
        pool.no_duplicates(),
        pool.len() <= usize::MAX,
        forall|i: int| 0 <= i < path.len() ==> pool.contains(#[trigger] path[i]),
    ensures
        decoder::parse_path(encoder::path_cbor(path, pool), pool) == Ok::<
            Seq<Segment>,
            ErrorModel,
        >(path),
{
    let items = encoder::path_cbor(path, pool)->Array_0;
    let results = decoder::pool_index_results(items, pool);
    assert forall|i: int| 0 <= i < path.len() implies #[trigger] results[i] == Ok::<
        Segment,
        ErrorModel,
    >(path[i]) by {
        assert(pool.contains(path[i]));
        assert(items[i] == Cbor::Integer(pool.index_of(path[i])));
    }
    error::lemma_gather_values(results, path, path.len());
    assert(path.take(path.len() as int) =~= path);
}

proof fn lemma_segments_round_trip(segments: Seq<Segment>)
    requires
        representable_path(segments),
    ensures
        decoder::parse_segments(encoder::segments_cbor(segments)) == Ok::<
            Seq<Segment>,
            ErrorModel,
        >(segments),
{
    let items = encoder::segments_cbor(segments)->Array_0;
    let results = decoder::segment_results(items);
    assert forall|i: int| 0 <= i < segments.len() implies #[trigger] results[i] == Ok::<
        Segment,
        ErrorModel,
    >(segments[i]) by {
        assert(items[i] == encoder::segment_cbor(segments[i]));
    }
    error::lemma_gather_values(results, segments, segments.len());
    assert(segments.take(segments.len() as int) =~= segments);
}

proof fn lemma_string_edits_round_trip(edits: Seq<Edit<char>>)
    requires
        forall|i: int| 0 <= i < edits.len() ==> representable_edit(#[trigger] edits[i]),
    ensures
        decoder::parse_string_edits(Cbor::Array(encoder::string_edits_cbor(edits))) == Ok::<
            Seq<Edit<char>>,
            ErrorModel,
        >(edits),
{
    let items = encoder::string_edits_cbor(edits);
    let results = decoder::string_edit_results(items);
    assert forall|i: int| 0 <= i < edits.len() implies #[trigger] results[i] == Ok::<
        Edit<char>,
        ErrorModel,
    >(edits[i]) by {
        assert(items[i] == encoder::string_edit_cbor(edits[i]));
        assert(representable_edit(edits[i]));
    }
    error::lemma_gather_values(results, edits, edits.len());
    assert(edits.take(edits.len() as int) =~= edits);
}

proof fn lemma_values_round_trip(values: Seq<Json>, count: nat)
    requires
        count <= values.len(),
        forall|i: int| 0 <= i < values.len() ==> json::valid(#[trigger] values[i]),
        json_cbor::first_unsafe_item(values, values.len()) is None,
    ensures
        json_cbor::from_cbor_items(json_cbor::cbors(values), count) == Ok::<
            Seq<Json>,
            ErrorModel,
        >(values.take(count as int)),
    decreases count,
{
    if count > 0 {
        lemma_values_round_trip(values, (count - 1) as nat);
        json_cbor::lemma_safe_item(values, values.len(), count - 1);
        json_cbor::law_json_round_trip(values[count - 1]);
        assert(json_cbor::cbors(values)[count - 1] == json_cbor::to_cbor(values[count - 1]));
        assert(values.take(count - 1).push(values[count - 1]) =~= values.take(count as int));
    } else {
        assert(values.take(0) =~= Seq::empty());
    }
}

proof fn lemma_array_edits_round_trip(edits: Seq<Edit<Json>>)
    requires
        edits.len() > 0,
        forall|i: int| 0 <= i < edits.len() ==> representable_array_edit(#[trigger] edits[i]),
        forall|i: int|
            0 <= i < edits.len() ==> (#[trigger] edits[i]).delete_count > 0
                || edits[i].items.len() > 0,
        encoder::first_unsafe_edit(edits, edits.len()) is None,
    ensures
        decoder::parse_array_edits(Cbor::Array(encoder::array_edits_cbor(edits))) == Ok::<
            Seq<Edit<Json>>,
            ErrorModel,
        >(edits),
{
    let items = encoder::array_edits_cbor(edits);
    let results = decoder::array_edit_results(items);
    assert forall|i: int| 0 <= i < edits.len() implies #[trigger] results[i] == Ok::<
        Edit<Json>,
        ErrorModel,
    >(edits[i]) by {
        assert(items[i] == encoder::array_edit_cbor(edits[i]));
        assert(representable_array_edit(edits[i]));
        encoder::lemma_safe_edit(edits, edits.len(), i);
        let values = edits[i].items;
        lemma_values_round_trip(values, values.len());
        assert(values.take(values.len() as int) =~= values);
        let elements = items[i]->Array_0;
        assert(elements[2] == Cbor::Array(json_cbor::cbors(values)));
        assert(json_cbor::cbors(values).len() == values.len());
    }
    error::lemma_gather_values(results, edits, edits.len());
    assert(edits.take(edits.len() as int) =~= edits);
}

/// An action is what its encoding stands for.
pub proof fn lemma_act_round_trip(act: Act, pool: Seq<Segment>)
    requires
        representable(act),
        array_patch_has_effect(act),
        encoder::first_unsafe_number(act) is None,
        pool.no_duplicates(),
        pool.len() <= usize::MAX,
        forall|i: int|
            0 <= i < encoder::segments_of(act).len() ==> pool.contains(
                #[trigger] encoder::segments_of(act)[i],
            ),
    ensures
        decoder::parse_act(encoder::act_cbor(act, pool), Notation::Pooled(pool)) == Ok::<Act, ErrorModel>(act),
{
    let segments = encoder::segments_of(act);
    match act {
        Act::Snapshot { value } => {
            json_cbor::law_json_round_trip(value);
            let elements = encoder::act_cbor(act, pool)->Array_0;
            assert(elements[1] == json_cbor::to_cbor(value));
        },
        Act::Add { path, value } => {
            lemma_path_round_trip(segments, pool);
            json_cbor::law_json_round_trip(value);
            lemma_add_round_trip(path, value, pool);
        },
        Act::Remove { path } => {
            lemma_path_round_trip(segments, pool);
            lemma_remove_round_trip(path, pool);
        },
        Act::Replace { path, value } => {
            lemma_path_round_trip(segments, pool);
            json_cbor::law_json_round_trip(value);
            lemma_replace_round_trip(path, value, pool);
        },
        Act::StringAppend { path, text } => {
            lemma_path_round_trip(segments, pool);
            lemma_append_round_trip(path, text, pool);
        },
        Act::StringPrepend { path, text } => {
            lemma_path_round_trip(segments, pool);
            lemma_prepend_round_trip(path, text, pool);
        },
        Act::StringPatch { path, edits } => {
            lemma_path_round_trip(segments, pool);
            lemma_string_edits_round_trip(edits);
            lemma_string_patch_round_trip(path, edits, pool);
        },
        Act::ArrayPatch { path, edits } => {
            lemma_path_round_trip(segments, pool);
            lemma_array_edits_round_trip(edits);
            lemma_array_patch_round_trip(path, edits, pool);
        },
        Act::Copy { from, path } => {
            lemma_two_paths_round_trip(segments, from, path, pool);
            lemma_copy_round_trip(from, path, pool);
        },
        Act::Move { from, path } => {
            lemma_two_paths_round_trip(segments, from, path, pool);
            lemma_move_round_trip(from, path, pool);
        },
    }
}

proof fn lemma_two_paths_round_trip(
    segments: Seq<Segment>,
    from: Seq<Segment>,
    path: Seq<Segment>,
    pool: Seq<Segment>,
)
    requires
        segments == from + path,
        pool.no_duplicates(),
        pool.len() <= usize::MAX,
        forall|i: int| 0 <= i < segments.len() ==> pool.contains(#[trigger] segments[i]),
    ensures
        decoder::parse_path(encoder::path_cbor(from, pool), pool) == Ok::<
            Seq<Segment>,
            ErrorModel,
        >(from),
        decoder::parse_path(encoder::path_cbor(path, pool), pool) == Ok::<
            Seq<Segment>,
            ErrorModel,
        >(path),
{
    assert forall|i: int| 0 <= i < from.len() implies pool.contains(#[trigger] from[i]) by {
        assert(segments[i] == from[i]);
    }
    assert forall|i: int| 0 <= i < path.len() implies pool.contains(#[trigger] path[i]) by {
        assert(segments[from.len() + i] == path[i]);
    }
    lemma_path_round_trip(from, pool);
    lemma_path_round_trip(path, pool);
}

proof fn lemma_add_round_trip(path: Seq<Segment>, value: Json, pool: Seq<Segment>)
    requires
        decoder::parse_path(encoder::path_cbor(path, pool), pool) == Ok::<
            Seq<Segment>,
            ErrorModel,
        >(path),
        json_cbor::from_cbor(json_cbor::to_cbor(value)) == Ok::<Json, ErrorModel>(value),
    ensures
        decoder::parse_act(encoder::act_cbor((Act::Add { path, value }), pool), Notation::Pooled(pool)) == Ok::<Act, ErrorModel>(
            (Act::Add { path, value }),
        ),
{
    let elements = encoder::act_cbor((Act::Add { path, value }), pool)->Array_0;
    assert(elements[1] == encoder::path_cbor(path, pool));
    assert(elements[2] == json_cbor::to_cbor(value));
}

proof fn lemma_replace_round_trip(path: Seq<Segment>, value: Json, pool: Seq<Segment>)
    requires
        decoder::parse_path(encoder::path_cbor(path, pool), pool) == Ok::<
            Seq<Segment>,
            ErrorModel,
        >(path),
        json_cbor::from_cbor(json_cbor::to_cbor(value)) == Ok::<Json, ErrorModel>(value),
    ensures
        decoder::parse_act(encoder::act_cbor((Act::Replace { path, value }), pool), Notation::Pooled(pool)) == Ok::<Act, ErrorModel>(
            (Act::Replace { path, value }),
        ),
{
    let elements = encoder::act_cbor((Act::Replace { path, value }), pool)->Array_0;
    assert(elements[1] == encoder::path_cbor(path, pool));
    assert(elements[2] == json_cbor::to_cbor(value));
}

proof fn lemma_remove_round_trip(path: Seq<Segment>, pool: Seq<Segment>)
    requires
        decoder::parse_path(encoder::path_cbor(path, pool), pool) == Ok::<
            Seq<Segment>,
            ErrorModel,
        >(path),
    ensures
        decoder::parse_act(encoder::act_cbor((Act::Remove { path }), pool), Notation::Pooled(pool)) == Ok::<Act, ErrorModel>(
            (Act::Remove { path }),
        ),
{
    let elements = encoder::act_cbor((Act::Remove { path }), pool)->Array_0;
    assert(elements[1] == encoder::path_cbor(path, pool));
}

proof fn lemma_append_round_trip(path: Seq<Segment>, text: Seq<char>, pool: Seq<Segment>)
    requires
        decoder::parse_path(encoder::path_cbor(path, pool), pool) == Ok::<
            Seq<Segment>,
            ErrorModel,
        >(path),
    ensures
        decoder::parse_act(encoder::act_cbor((Act::StringAppend { path, text }), pool), Notation::Pooled(pool)) == Ok::<Act, ErrorModel>(
            (Act::StringAppend { path, text }),
        ),
{
    let elements = encoder::act_cbor((Act::StringAppend { path, text }), pool)->Array_0;
    assert(elements[1] == encoder::path_cbor(path, pool));
    assert(elements[2] == Cbor::Text(text));
}

proof fn lemma_prepend_round_trip(path: Seq<Segment>, text: Seq<char>, pool: Seq<Segment>)
    requires
        decoder::parse_path(encoder::path_cbor(path, pool), pool) == Ok::<
            Seq<Segment>,
            ErrorModel,
        >(path),
    ensures
        decoder::parse_act(encoder::act_cbor((Act::StringPrepend { path, text }), pool), Notation::Pooled(pool)) == Ok::<Act, ErrorModel>(
            (Act::StringPrepend { path, text }),
        ),
{
    let elements = encoder::act_cbor((Act::StringPrepend { path, text }), pool)->Array_0;
    assert(elements[1] == encoder::path_cbor(path, pool));
    assert(elements[2] == Cbor::Text(text));
}

proof fn lemma_string_patch_round_trip(path: Seq<Segment>, edits: Seq<Edit<char>>, pool: Seq<Segment>)
    requires
        decoder::parse_path(encoder::path_cbor(path, pool), pool) == Ok::<
            Seq<Segment>,
            ErrorModel,
        >(path),
        decoder::parse_string_edits(Cbor::Array(encoder::string_edits_cbor(edits))) == Ok::<
            Seq<Edit<char>>,
            ErrorModel,
        >(edits),
    ensures
        decoder::parse_act(encoder::act_cbor((Act::StringPatch { path, edits }), pool), Notation::Pooled(pool)) == Ok::<Act, ErrorModel>(
            (Act::StringPatch { path, edits }),
        ),
{
    let elements = encoder::act_cbor((Act::StringPatch { path, edits }), pool)->Array_0;
    assert(elements[1] == encoder::path_cbor(path, pool));
    assert(elements[2] == Cbor::Array(encoder::string_edits_cbor(edits)));
}

proof fn lemma_array_patch_round_trip(path: Seq<Segment>, edits: Seq<Edit<Json>>, pool: Seq<Segment>)
    requires
        decoder::parse_path(encoder::path_cbor(path, pool), pool) == Ok::<
            Seq<Segment>,
            ErrorModel,
        >(path),
        decoder::parse_array_edits(Cbor::Array(encoder::array_edits_cbor(edits))) == Ok::<
            Seq<Edit<Json>>,
            ErrorModel,
        >(edits),
    ensures
        decoder::parse_act(encoder::act_cbor((Act::ArrayPatch { path, edits }), pool), Notation::Pooled(pool)) == Ok::<Act, ErrorModel>(
            (Act::ArrayPatch { path, edits }),
        ),
{
    let elements = encoder::act_cbor((Act::ArrayPatch { path, edits }), pool)->Array_0;
    assert(elements[1] == encoder::path_cbor(path, pool));
    assert(elements[2] == Cbor::Array(encoder::array_edits_cbor(edits)));
}

proof fn lemma_copy_round_trip(from: Seq<Segment>, path: Seq<Segment>, pool: Seq<Segment>)
    requires
        decoder::parse_path(encoder::path_cbor(path, pool), pool) == Ok::<
            Seq<Segment>,
            ErrorModel,
        >(path),
        decoder::parse_path(encoder::path_cbor(from, pool), pool) == Ok::<
            Seq<Segment>,
            ErrorModel,
        >(from),
    ensures
        decoder::parse_act(encoder::act_cbor((Act::Copy { from, path }), pool), Notation::Pooled(pool)) == Ok::<Act, ErrorModel>(
            (Act::Copy { from, path }),
        ),
{
    let elements = encoder::act_cbor((Act::Copy { from, path }), pool)->Array_0;
    assert(elements[1] == encoder::path_cbor(from, pool));
    assert(elements[2] == encoder::path_cbor(path, pool));
}

proof fn lemma_move_round_trip(from: Seq<Segment>, path: Seq<Segment>, pool: Seq<Segment>)
    requires
        decoder::parse_path(encoder::path_cbor(path, pool), pool) == Ok::<
            Seq<Segment>,
            ErrorModel,
        >(path),
        decoder::parse_path(encoder::path_cbor(from, pool), pool) == Ok::<
            Seq<Segment>,
            ErrorModel,
        >(from),
    ensures
        decoder::parse_act(encoder::act_cbor((Act::Move { from, path }), pool), Notation::Pooled(pool)) == Ok::<Act, ErrorModel>(
            (Act::Move { from, path }),
        ),
{
    let elements = encoder::act_cbor((Act::Move { from, path }), pool)->Array_0;
    assert(elements[1] == encoder::path_cbor(from, pool));
    assert(elements[2] == encoder::path_cbor(path, pool));
}

proof fn lemma_acts_round_trip(acts: Seq<Act>, pool: Seq<Segment>)
    requires
        encoder::encoding_error(acts) is None,
        forall|i: int|
            0 <= i < acts.len() ==> representable(#[trigger] acts[i]) && array_patch_has_effect(
                acts[i],
            ),
        pool.no_duplicates(),
        encoder::absorb_acts(pool, acts, acts.len()).len() <= usize::MAX,
    ensures
        ({
            let full = encoder::absorb_acts(pool, acts, acts.len());
            decoder::parse_acts(encoder::acts_cbor(acts, full), Notation::Pooled(full)) == Ok::<
                Seq<Act>,
                ErrorModel,
            >(acts)
        }),
{
    let full = encoder::absorb_acts(pool, acts, acts.len());
    encoder::lemma_absorb_acts(pool, acts, acts.len());
    let items = encoder::acts_cbor(acts, full)->Array_0;
    let results = decoder::act_results(items, Notation::Pooled(full));
    assert forall|i: int| 0 <= i < acts.len() implies #[trigger] results[i] == Ok::<
        Act,
        ErrorModel,
    >(acts[i]) by {
        assert(items[i] == encoder::act_cbor(acts[i], full));
        encoder::lemma_safe_act(acts, acts.len(), i);
        lemma_act_round_trip(acts[i], full);
    }
    error::lemma_gather_values(results, acts, acts.len());
    assert(acts.take(acts.len() as int) =~= acts);
}

/// A pool stays representable when it takes up the segments of actions.
pub proof fn lemma_added_representable(pool: Seq<Segment>, acts: Seq<Act>, count: nat)
    requires
        count <= acts.len(),
        representable_path(pool),
        forall|i: int| 0 <= i < acts.len() ==> representable(#[trigger] acts[i]),
    ensures
        representable_path(encoder::absorb_acts(pool, acts, count)),
    decreases count,
{
    if count > 0 {
        lemma_added_representable(pool, acts, (count - 1) as nat);
        let before = encoder::absorb_acts(pool, acts, (count - 1) as nat);
        let path = encoder::segments_of(acts[count - 1]);
        assert(representable(acts[count - 1]));
        lemma_absorbed_representable(before, path);
    }
}

proof fn lemma_absorbed_representable(pool: Seq<Segment>, path: Seq<Segment>)
    requires
        representable_path(pool),
        representable_path(path),
    ensures
        representable_path(pool::absorb_path(pool, path)),
    decreases path.len(),
{
    if path.len() > 0 {
        lemma_absorbed_representable(pool, path.drop_last());
        assert(path.last() == path[path.len() - 1]);
    }
}

/// Whether a message can be sent: its numbers are safe, its actions can be held in memory, and
/// the decoder accepts its array patches.
pub open spec fn sendable(acts: Seq<Act>) -> bool {
    &&& encoder::encoding_error(acts) is None
    &&& forall|i: int|
        0 <= i < acts.len() ==> representable(#[trigger] acts[i]) && array_patch_has_effect(acts[i])
}

/// Reading back what was written: the actions of a message in the paired layout are decoded as
/// they were encoded, and the reader's pool ends up as the writer's.
pub proof fn law_paired_message_round_trip(acts: Seq<Act>, base: Seq<Segment>, bytes: Seq<u8>)
    requires
        sendable(acts),
        base.no_duplicates(),
        representable_path(base),
        encoder::absorb_acts(base, acts, acts.len()).len() <= usize::MAX,
        encoder::carries(bytes, encoder::paired_payload(acts, base, base)),
    ensures
        decoder::decode(bytes, base) == (
            encoder::absorb_acts(base, acts, acts.len()),
            Ok::<Seq<Act>, ErrorModel>(acts),
        ),
{
    let full = encoder::absorb_acts(base, acts, acts.len());
    let added = full.skip(base.len() as int);
    encoder::lemma_absorb_acts(base, acts, acts.len());
    lemma_added_representable(base, acts, acts.len());
    assert(representable_path(added)) by {
        assert forall|i: int| 0 <= i < added.len() implies (#[trigger] added[i] matches Segment::Index(n)
            ==> 0 <= n <= usize::MAX) by {
            assert(added[i] == full[base.len() + i]);
        }
    }
    lemma_segments_round_trip(added);
    assert(base + added =~= full);
    lemma_acts_round_trip(acts, base);
    let payload = encoder::paired_payload(acts, base, base);
    assert(decoder::payload_of(bytes) == Ok::<Cbor, ErrorModel>(payload));
    let items = payload->Array_0;
    assert(items[0] == Cbor::Array(seq![encoder::segments_cbor(added)]));
    assert(items[0]->Array_0[0] == encoder::segments_cbor(added));
}

proof fn lemma_tagged_is_not_bare(acts: Seq<Act>, base: Seq<Segment>)
    requires
        acts.len() > 0,
    ensures
        !decoder::is_bare(encoder::tagged_payload(acts, base, base)->Array_0),
{
    let full = encoder::absorb_acts(base, acts, acts.len());
    let items = encoder::tagged_payload(acts, base, base)->Array_0;
    if items.len() == 1 {
        assert(items[0] == encoder::acts_cbor(acts, full));
        assert(items[0]->Array_0[0] == encoder::act_cbor(acts[0], full));
    }
}

/// Reading back what was written: the actions of a message in the tagged layout are decoded as
/// they were encoded, and the reader's pool ends up as the writer's. A message without actions is
/// left out: the decoder takes what stands for it as one action without an opcode.
pub proof fn law_tagged_message_round_trip(acts: Seq<Act>, base: Seq<Segment>, bytes: Seq<u8>)
    requires
        acts.len() > 0,
        sendable(acts),
        base.no_duplicates(),
        representable_path(base),
        encoder::absorb_acts(base, acts, acts.len()).len() <= usize::MAX,
        encoder::carries(bytes, encoder::tagged_payload(acts, base, base)),
    ensures
        decoder::decode(bytes, base) == (
            encoder::absorb_acts(base, acts, acts.len()),
            Ok::<Seq<Act>, ErrorModel>(acts),
        ),
{
    let full = encoder::absorb_acts(base, acts, acts.len());
    let added = full.skip(base.len() as int);
    encoder::lemma_absorb_acts(base, acts, acts.len());
    lemma_added_representable(base, acts, acts.len());
    assert(representable_path(added)) by {
        assert forall|i: int| 0 <= i < added.len() implies (#[trigger] added[i] matches Segment::Index(n)
            ==> 0 <= n <= usize::MAX) by {
            assert(added[i] == full[base.len() + i]);
        }
    }
    lemma_segments_round_trip(added);
    assert(base + added =~= full);
    lemma_acts_round_trip(acts, base);
    let payload = encoder::tagged_payload(acts, base, base);
    assert(decoder::payload_of(bytes) == Ok::<Cbor, ErrorModel>(payload));
    let items = payload->Array_0;
    let metadata = items.drop_last();
    lemma_tagged_is_not_bare(acts, base);
    if added.len() == 0 {
        assert(items.len() == 1);
        assert(added =~= Seq::empty());
        assert(decoder::parse_pairs(metadata, 0).added =~= Seq::empty());
    } else {
        assert(items.len() == 3);
        assert(metadata[0] == items[0]);
        assert(metadata[1] == items[1]);
        assert(decoder::parse_pairs(metadata, 0).error is None);
        assert(decoder::parse_pairs(metadata, 0).added =~= Seq::empty());
        assert(Seq::<Segment>::empty() + added =~= added);
        assert(decoder::parse_pairs(metadata, 1).added == added);
        assert((items.len() - 1) as nat / 2 == 1);
    }
    assert(items.last() == encoder::acts_cbor(acts, full));
}

} // verus!
