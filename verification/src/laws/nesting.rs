//! How deep the messages of a producer are nested.

use vstd::prelude::*;

use crate::cbor;
use crate::cbor::Cbor;
use crate::json;
use crate::json::Json;
use crate::laws;
use crate::message::action::{Act, Edit, Segment};
use crate::message::encoder;
use crate::message::json_cbor;
use crate::message::opcode;
use crate::producer::arrays;
use crate::producer::diff;
use crate::producer::hunks;
use crate::producer::myers;
use crate::producer::objects;
use crate::producer::sequences;
use crate::producer::ProducerModel;
use crate::string_map;

verus! {

/// Whether the arrays and objects of a document are nested at most `depth` deep.
pub open spec fn within(json: Json, depth: int) -> bool {
    cbor::nested(json_cbor::to_cbor(json), depth)
}

/// How deep values may be nested in an action.
pub open spec fn shallow(act: Act, depth: int) -> bool {
    match act {
        Act::Snapshot { value } => within(value, depth),
        Act::Add { value, .. } => within(value, depth),
        Act::Replace { value, .. } => within(value, depth),
        Act::ArrayPatch { edits, .. } => forall|i: int, j: int|
            0 <= i < edits.len() && 0 <= j < edits[i].items.len() ==> within(
                #[trigger] edits[i].items[j],
                depth - 3,
            ),
        _ => true,
    }
}

/// How deep values may be nested in all actions.
pub open spec fn all_shallow(acts: Seq<Act>, depth: int) -> bool {
    forall|i: int| 0 <= i < acts.len() ==> shallow(#[trigger] acts[i], depth)
}

/// What is nested at most so deep is nested at most deeper.
proof fn lemma_deeper(item: Cbor, depth: int, deeper: int)
    requires
        cbor::nested(item, depth),
        depth <= deeper,
    ensures
        cbor::nested(item, deeper),
    decreases item,
{
    match item {
        Cbor::Array(items) => {
            assert(item->Array_0 == items);
            assert forall|i: int| 0 <= i < items.len() implies cbor::nested(
                #[trigger] items[i],
                deeper - 1,
            ) by {
                cbor::lemma_cbor_item_smaller(items, i);
                assert(cbor::nested(item->Array_0[i], depth - 1));
                lemma_deeper(items[i], depth - 1, deeper - 1);
            }
        },
        Cbor::Dict(entries) => {
            assert(item->Dict_0 == entries);
            assert forall|i: int| 0 <= i < entries.len() implies cbor::nested(
                (#[trigger] entries[i]).0,
                deeper - 1,
            ) && cbor::nested(entries[i].1, deeper - 1) by {
                cbor::lemma_cbor_pair_smaller(entries, i);
                assert(cbor::nested(item->Dict_0[i].0, depth - 1));
                lemma_deeper(entries[i].0, depth - 1, deeper - 1);
                lemma_deeper(entries[i].1, depth - 1, deeper - 1);
            }
        },
        Cbor::Tag(_, inner) => {
            lemma_deeper(*inner, depth - 1, deeper - 1);
        },
        _ => {},
    }
}

/// The items of an array are nested less deep.
proof fn lemma_item_within(items: Seq<Json>, i: int, depth: int)
    requires
        within(Json::Array(items), depth),
        0 <= i < items.len(),
    ensures
        within(items[i], depth - 1),
        within(items[i], depth),
{
    json_cbor::lemma_array_cbor(items);
    let item = json_cbor::to_cbor(Json::Array(items));
    assert(item->Array_0[i] == json_cbor::to_cbor(items[i]));
    assert(cbor::nested(item->Array_0[i], depth - 1));
    lemma_deeper(json_cbor::to_cbor(items[i]), depth - 1, depth);
}

/// The values of an object are nested less deep.
proof fn lemma_value_within(entries: Seq<(Seq<char>, Json)>, key: Seq<char>, depth: int)
    requires
        within(Json::Object(entries), depth),
        string_map::has_key(entries, key),
    ensures
        within(string_map::lookup(entries, key), depth),
{
    json_cbor::lemma_object_cbor(entries);
    string_map::lemma_slot_range(entries, key);
    let at = string_map::slot(entries, key);
    let item = json_cbor::to_cbor(Json::Object(entries));
    assert(item->Dict_0[at].1 == json_cbor::to_cbor(entries[at].1));
    assert(cbor::nested(item->Dict_0[at].0, depth - 1));
    lemma_deeper(json_cbor::to_cbor(entries[at].1), depth - 1, depth);
}

proof fn lemma_together(a: Seq<Act>, b: Seq<Act>, depth: int)
    requires
        all_shallow(a, depth),
        all_shallow(b, depth),
    ensures
        all_shallow(a + b, depth),
{
    assert forall|i: int| 0 <= i < (a + b).len() implies shallow(#[trigger] (a + b)[i], depth) by {
        if i < a.len() {
            assert((a + b)[i] == a[i]);
        } else {
            assert((a + b)[i] == b[i - a.len()]);
        }
    }
}

/// Whether actions hold no values.
spec fn no_values(acts: Seq<Act>) -> bool {
    forall|i: int| 0 <= i < acts.len() ==> (#[trigger] acts[i]) is Move || acts[i] is Copy
}

/// Moves and copies hold no values.
proof fn lemma_no_values(
    keys: Seq<Seq<char>>,
    old: Seq<(Seq<char>, Json)>,
    new: Seq<(Seq<char>, Json)>,
    path: Seq<Segment>,
    pool: Seq<Segment>,
    count: nat,
)
    ensures
        no_values(objects::moves(old, new, path, pool, count).acts),
        no_values(objects::copies(keys, old, new, path, pool, count).acts),
    decreases count,
{
    if count > 0 {
        lemma_no_values(keys, old, new, path, pool, (count - 1) as nat);
    }
}

/// Patches of an array whose items are nested less deep.
proof fn lemma_array_patches(old: Seq<Json>, new: Seq<Json>, path: Seq<Segment>, depth: int)
    requires
        forall|i: int| 0 <= i < new.len() ==> within(#[trigger] new[i], depth - 3),
    ensures
        arrays::single_patch_acts(old, new, path) matches Some(acts) ==> all_shallow(acts, depth),
        arrays::script_patch_acts(old, new, path) matches Some(acts) ==> all_shallow(acts, depth),
{
    let p = arrays::value_problem(old, new);
    sequences::lemma_ends(p);
    let prefix = sequences::prefix_len(p);
    let a = sequences::middle(old, p);
    let b = sequences::middle(new, p);
    if let Some(acts) = arrays::single_patch_acts(old, new, path) {
        let edits = seq![Edit { start: prefix, delete_count: a.len() as int, items: b }];
        assert forall|i: int, j: int|
            0 <= i < edits.len() && 0 <= j < edits[i].items.len() implies within(
            #[trigger] edits[i].items[j],
            depth - 3,
        ) by {
            assert(edits[i].items[j] == new[prefix + j]);
        }
        assert(shallow(acts[0], depth));
    }
    if let Some(acts) = arrays::script_patch_acts(old, new, path) {
        let q = arrays::value_problem(a, b);
        let edits = hunks::script_edits(q.script(), b, prefix);
        let runs = hunks::hunks(q.script());
        myers::law_script_leads_to_the_end(q);
        hunks::lemma_fits_in_reach(q.script(), q.alike);
        assert forall|i: int, j: int|
            0 <= i < edits.len() && 0 <= j < edits[i].items.len() implies within(
            #[trigger] edits[i].items[j],
            depth - 3,
        ) by {
            let at = runs.len() - 1 - i;
            hunks::lemma_hunk_bounds(q.script(), q.m, at);
            let index = runs[at].inserted[j];
            assert(edits[i].items[j] == new[prefix + index]);
        }
        assert(shallow(acts[0], depth));
    }
}

/// How deep a document may be nested so that its values fit into actions.
spec fn fitting(json: Json, depth: int, patches: bool) -> bool {
    within(json, depth) && (patches ==> within(json, depth - 2))
}

proof fn lemma_items(
    old: Seq<Json>,
    new: Seq<Json>,
    path: Seq<Segment>,
    pool: Seq<Segment>,
    patches: bool,
    depth: int,
    count: nat,
)
    requires
        json::valid(Json::Array(new)),
        fitting(Json::Array(new), depth, patches),
        count <= old.len(),
        count <= new.len(),
    ensures
        all_shallow(diff::item_acts(old, new, path, pool, patches, count), depth),
    decreases old, count,
{
    if count > 0 {
        let i = count - 1;
        let to = Json::Array(new);
        assert(json::valid(to->Array_0[i]));
        lemma_items(old, new, path, pool, patches, depth, i as nat);
        lemma_item_within(new, i, depth);
        if patches {
            lemma_item_within(new, i, depth - 2);
        }
        lemma_diff(old[i], new[i], diff::element(path, i), pool, patches, depth);
        lemma_together(
            diff::item_acts(old, new, path, pool, patches, i as nat),
            diff::diff(old[i], new[i], diff::element(path, i), pool, patches),
            depth,
        );
    }
}

proof fn lemma_itemwise(
    old: Seq<Json>,
    new: Seq<Json>,
    path: Seq<Segment>,
    pool: Seq<Segment>,
    patches: bool,
    depth: int,
)
    requires
        json::valid(Json::Array(new)),
        fitting(Json::Array(new), depth, patches),
    ensures
        all_shallow(diff::itemwise_acts(old, new, path, pool, patches), depth),
    decreases old, old.len() + 1,
{
    let common = diff::shorter(old.len(), new.len());
    let items = diff::item_acts(old, new, path, pool, patches, common);
    let shrink = diff::shrink_acts(old.len(), common, path);
    let grow = diff::grow_acts(new, common, path);
    lemma_items(old, new, path, pool, patches, depth, common);
    assert forall|i: int| 0 <= i < grow.len() implies shallow(#[trigger] grow[i], depth) by {
        lemma_item_within(new, common + i, depth);
    }
    lemma_together(items, shrink, depth);
    lemma_together(items + shrink, grow, depth);
}

proof fn lemma_entries(
    old: Seq<(Seq<char>, Json)>,
    new: Seq<(Seq<char>, Json)>,
    path: Seq<Segment>,
    pool: Seq<Segment>,
    patches: bool,
    depth: int,
    count: nat,
)
    requires
        json::valid(Json::Object(new)),
        fitting(Json::Object(new), depth, patches),
        count <= old.len(),
    ensures
        all_shallow(diff::entry_acts(old, new, path, pool, patches, count), depth),
    decreases old, count,
{
    if count > 0 {
        let entry = old[count - 1];
        lemma_entries(old, new, path, pool, patches, depth, (count - 1) as nat);
        if string_map::has_key(new, entry.0) {
            lemma_value_within(new, entry.0, depth);
            if patches {
                lemma_value_within(new, entry.0, depth - 2);
            }
            string_map::lemma_slot_range(new, entry.0);
            let to = Json::Object(new);
            assert(json::valid(to->Object_0[string_map::slot(new, entry.0)].1));
            assert(decreases_to!(old => old[count - 1]));
            assert(decreases_to!(entry => entry.1));
            let value = string_map::lookup(new, entry.0);
            let child = objects::property(path, entry.0);
            lemma_diff(entry.1, value, child, pool, patches, depth);
            lemma_together(
                diff::entry_acts(old, new, path, pool, patches, (count - 1) as nat),
                diff::diff(entry.1, value, child, pool, patches),
                depth,
            );
        }
    }
}

proof fn lemma_object(
    old: Seq<(Seq<char>, Json)>,
    new: Seq<(Seq<char>, Json)>,
    path: Seq<Segment>,
    pool: Seq<Segment>,
    patches: bool,
    depth: int,
)
    requires
        json::valid(Json::Object(new)),
        fitting(Json::Object(new), depth, patches),
    ensures
        all_shallow(diff::object_acts(old, new, path, pool, patches), depth),
    decreases old, old.len() + 1,
{
    let to = Json::Object(new);
    assert(to->Object_0 == new);
    let removed = objects::removed_keys(old, new);
    let moved = objects::moves(old, new, path, pool, removed.len());
    let copied = objects::copies(moved.added, old, new, path, pool, moved.added.len());
    let removes = objects::remove_acts(moved.removed, path);
    let entries = diff::entry_acts(old, new, path, pool, patches, old.len());
    let adds = objects::add_acts(copied.added, new, path);
    lemma_no_values(moved.added, old, new, path, pool, removed.len());
    lemma_no_values(moved.added, old, new, path, pool, moved.added.len());
    laws::objects::lemma_left_by_moves(old, new, path, pool, removed.len());
    laws::objects::lemma_left_by_copies(moved.added, old, new, path, pool, moved.added.len());
    assert(all_shallow(moved.acts, depth));
    assert(all_shallow(copied.acts, depth));
    lemma_entries(old, new, path, pool, patches, depth, old.len());
    assert forall|i: int| 0 <= i < adds.len() implies shallow(#[trigger] adds[i], depth) by {
        lemma_value_within(new, copied.added[i], depth);
    }
    lemma_together(moved.acts, removes, depth);
    lemma_together(moved.acts + removes, copied.acts, depth);
    lemma_together(moved.acts + removes + copied.acts, entries, depth);
    lemma_together(moved.acts + removes + copied.acts + entries, adds, depth);
}

/// How deep the values of a plan are nested.
proof fn lemma_diff(
    from: Json,
    to: Json,
    path: Seq<Segment>,
    pool: Seq<Segment>,
    patches: bool,
    depth: int,
)
    requires
        json::valid(to),
        fitting(to, depth, patches),
    ensures
        all_shallow(diff::diff(from, to, path, pool, patches), depth),
    decreases from, 0nat,
{
    if !json::same(from, to) {
        match (from, to) {
            (Json::Object(old), Json::Object(new)) => {
                assert(from->Object_0 == old);
                lemma_object(old, new, path, pool, patches, depth);
            },
            (Json::Array(old), Json::Array(new)) => {
                assert(from->Array_0 == old);
                lemma_itemwise(old, new, path, pool, patches, depth);
                if patches {
                    assert forall|i: int| 0 <= i < new.len() implies within(
                        #[trigger] new[i],
                        depth - 3,
                    ) by {
                        lemma_item_within(new, i, depth - 2);
                    }
                    lemma_array_patches(old, new, path, depth);
                }
            },
            (Json::String(old), Json::String(new)) => {},
            _ => {},
        }
    }
}

/// Items without parts are not nested.
proof fn lemma_flat(items: Seq<Cbor>, depth: int)
    requires
        depth > 0,
        forall|i: int|
            0 <= i < items.len() ==> (#[trigger] items[i]) is Integer || items[i] is Text,
    ensures
        cbor::nested(Cbor::Array(items), depth),
{
    let item = Cbor::Array(items);
    assert(item->Array_0 == items);
    assert forall|i: int| 0 <= i < items.len() implies cbor::nested(#[trigger] items[i], depth - 1) by {
    }
}

/// An array of three items is nested one deeper than these.
proof fn lemma_three(a: Cbor, b: Cbor, c: Cbor, depth: int)
    requires
        depth > 0,
        cbor::nested(a, depth - 1),
        cbor::nested(b, depth - 1),
        cbor::nested(c, depth - 1),
    ensures
        cbor::nested(Cbor::Array(seq![a, b, c]), depth),
{
    let item = Cbor::Array(seq![a, b, c]);
    assert(item->Array_0 == seq![a, b, c]);
}

/// An array of two items is nested one deeper than these.
proof fn lemma_two(a: Cbor, b: Cbor, depth: int)
    requires
        depth > 0,
        cbor::nested(a, depth - 1),
        cbor::nested(b, depth - 1),
    ensures
        cbor::nested(Cbor::Array(seq![a, b]), depth),
{
    let item = Cbor::Array(seq![a, b]);
    assert(item->Array_0 == seq![a, b]);
}

/// How deep an action is nested as a CBOR item.
proof fn lemma_act_nested(act: Act, pool: Seq<Segment>, depth: int)
    requires
        depth >= 4,
        shallow(act, depth),
    ensures
        cbor::nested(encoder::act_cbor(act, pool), depth + 1),
{
    match act {
        Act::Snapshot { value } => {
            lemma_two(
                Cbor::Integer(opcode::OPCODE_SNAPSHOT as int),
                json_cbor::to_cbor(value),
                depth + 1,
            );
        },
        Act::Add { path, value } => {
            lemma_flat(encoder::path_cbor(path, pool)->Array_0, depth);
            lemma_three(
                Cbor::Integer(opcode::OPCODE_ADD as int),
                encoder::path_cbor(path, pool),
                json_cbor::to_cbor(value),
                depth + 1,
            );
        },
        Act::Replace { path, value } => {
            lemma_flat(encoder::path_cbor(path, pool)->Array_0, depth);
            lemma_three(
                Cbor::Integer(opcode::OPCODE_REPLACE as int),
                encoder::path_cbor(path, pool),
                json_cbor::to_cbor(value),
                depth + 1,
            );
        },
        Act::Remove { path } => {
            lemma_flat(encoder::path_cbor(path, pool)->Array_0, depth);
            lemma_two(
                Cbor::Integer(opcode::OPCODE_REMOVE as int),
                encoder::path_cbor(path, pool),
                depth + 1,
            );
        },
        Act::StringAppend { path, text } => {
            lemma_flat(encoder::path_cbor(path, pool)->Array_0, depth);
            lemma_three(
                Cbor::Integer(opcode::OPCODE_STRING_APPEND as int),
                encoder::path_cbor(path, pool),
                Cbor::Text(text),
                depth + 1,
            );
        },
        Act::StringPrepend { path, text } => {
            lemma_flat(encoder::path_cbor(path, pool)->Array_0, depth);
            lemma_three(
                Cbor::Integer(opcode::OPCODE_STRING_PREPEND as int),
                encoder::path_cbor(path, pool),
                Cbor::Text(text),
                depth + 1,
            );
        },
        Act::StringPatch { path, edits } => {
            lemma_flat(encoder::path_cbor(path, pool)->Array_0, depth);
            let items = encoder::string_edits_cbor(edits);
            let list = Cbor::Array(items);
            assert(cbor::nested(list, depth)) by {
                assert(list->Array_0 == items);
                assert forall|i: int| 0 <= i < items.len() implies cbor::nested(
                    #[trigger] items[i],
                    depth - 1,
                ) by {
                    lemma_flat(encoder::string_edit_cbor(edits[i])->Array_0, depth - 1);
                }
            }
            lemma_three(
                Cbor::Integer(opcode::OPCODE_STRING_PATCH as int),
                encoder::path_cbor(path, pool),
                list,
                depth + 1,
            );
        },
        Act::ArrayPatch { path, edits } => {
            lemma_flat(encoder::path_cbor(path, pool)->Array_0, depth);
            let items = encoder::array_edits_cbor(edits);
            let list = Cbor::Array(items);
            assert(cbor::nested(list, depth)) by {
                assert(list->Array_0 == items);
                assert forall|i: int| 0 <= i < items.len() implies cbor::nested(
                    #[trigger] items[i],
                    depth - 1,
                ) by {
                    lemma_edit_nested(edits, i, depth);
                }
            }
            lemma_three(
                Cbor::Integer(opcode::OPCODE_ARRAY_PATCH as int),
                encoder::path_cbor(path, pool),
                list,
                depth + 1,
            );
        },
        Act::Copy { from, path } => {
            lemma_flat(encoder::path_cbor(from, pool)->Array_0, depth);
            lemma_flat(encoder::path_cbor(path, pool)->Array_0, depth);
            lemma_three(
                Cbor::Integer(opcode::OPCODE_COPY as int),
                encoder::path_cbor(from, pool),
                encoder::path_cbor(path, pool),
                depth + 1,
            );
        },
        Act::Move { from, path } => {
            lemma_flat(encoder::path_cbor(from, pool)->Array_0, depth);
            lemma_flat(encoder::path_cbor(path, pool)->Array_0, depth);
            lemma_three(
                Cbor::Integer(opcode::OPCODE_MOVE as int),
                encoder::path_cbor(from, pool),
                encoder::path_cbor(path, pool),
                depth + 1,
            );
        },
    }
}

/// How deep an edit of an array is nested as a CBOR item.
proof fn lemma_edit_nested(edits: Seq<Edit<Json>>, i: int, depth: int)
    requires
        depth >= 4,
        0 <= i < edits.len(),
        forall|i: int, j: int|
            0 <= i < edits.len() && 0 <= j < edits[i].items.len() ==> within(
                #[trigger] edits[i].items[j],
                depth - 3,
            ),
    ensures
        cbor::nested(encoder::array_edit_cbor(edits[i]), depth - 1),
{
    let items = json_cbor::cbors(edits[i].items);
    let values = Cbor::Array(items);
    assert(cbor::nested(values, depth - 2)) by {
        assert(values->Array_0 == items);
        assert forall|j: int| 0 <= j < items.len() implies cbor::nested(
            #[trigger] items[j],
            depth - 3,
        ) by {
            assert(within(edits[i].items[j], depth - 3));
        }
    }
    lemma_three(
        Cbor::Integer(edits[i].start),
        Cbor::Integer(edits[i].delete_count),
        values,
        depth - 1,
    );
}

/// How deep a message is nested.
proof fn lemma_payload_nested(acts: Seq<Act>, base: Seq<Segment>, depth: int)
    requires
        depth >= 4,
        all_shallow(acts, depth),
    ensures
        cbor::nested(encoder::paired_payload(acts, base, base), depth + 3),
{
    let full = encoder::absorb_acts(base, acts, acts.len());
    let added = full.skip(base.len() as int);
    let segments = encoder::segments_cbor(added);
    assert(segments->Array_0 =~= Seq::new(
        added.len(),
        |i: int| encoder::segment_cbor(added[i]),
    ));
    lemma_flat(segments->Array_0, depth + 1);
    let metadata = Cbor::Array(seq![segments]);
    assert(cbor::nested(metadata, depth + 2)) by {
        assert(metadata->Array_0 == seq![segments]);
    }
    let list = encoder::acts_cbor(acts, full);
    let items = list->Array_0;
    assert(cbor::nested(list, depth + 2)) by {
        assert forall|i: int| 0 <= i < items.len() implies cbor::nested(
            #[trigger] items[i],
            depth + 1,
        ) by {
            lemma_act_nested(acts[i], full, depth);
        }
    }
    lemma_two(metadata, list, depth + 3);
}

/// How deep a document may be nested so that every message about it can be read: the message
/// itself adds three levels, or five where array patches are allowed.
pub open spec fn depth_limit(array_patches: bool) -> int {
    if array_patches {
        cbor::NESTING_LIMIT - 5
    } else {
        cbor::NESTING_LIMIT - 3
    }
}

/// A message about a document that is not nested too deep is not nested too deep.
pub proof fn law_shallow_documents_have_shallow_messages(producer: ProducerModel)
    requires
        producer.well_formed(),
        within(producer.current, depth_limit(producer.array_patches)),
    ensures
        cbor::nested(producer.next_payload(), cbor::NESTING_LIMIT as int),
{
    let acts = producer.next_acts();
    let depth = cbor::NESTING_LIMIT - 3;
    lemma_deeper(
        json_cbor::to_cbor(producer.current),
        depth_limit(producer.array_patches),
        depth,
    );
    assert(all_shallow(acts, depth)) by {
        match producer.emitted {
            None => {},
            Some(document) => {
                lemma_diff(
                    document,
                    producer.current,
                    Seq::empty(),
                    producer.pool,
                    producer.array_patches,
                    depth,
                );
            },
        }
    }
    lemma_payload_nested(acts, producer.pool, depth);
}

} // verus!
