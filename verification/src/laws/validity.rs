//! Actions keep the properties of objects in key order.

use vstd::prelude::*;

use crate::apply;
use crate::apply::Step;
use crate::consumer;
use crate::json;
use crate::json::Json;
use crate::laws::normal;
use crate::laws::paths;
use crate::message::action::{Act, Edit, Segment};
use crate::patch;
use crate::patch::PatchWording;
use crate::string_map;

verus! {

/// Whether the values that an action carries have their properties in key order.
pub open spec fn carries_valid_values(act: Act) -> bool {
    match act {
        Act::Snapshot { value } => json::valid(value),
        Act::Add { value, .. } => json::valid(value),
        Act::Replace { value, .. } => json::valid(value),
        Act::ArrayPatch { edits, .. } => forall|i: int|
            0 <= i < edits.len() ==> json::valid(Json::Array((#[trigger] edits[i]).items)),
        _ => true,
    }
}

proof fn lemma_valid_items(items: Seq<Json>)
    ensures
        json::valid(Json::Array(items)) <==> forall|i: int|
            0 <= i < items.len() ==> json::valid(#[trigger] items[i]),
{
    let json = Json::Array(items);
    assert(json->Array_0 == items);
}

proof fn lemma_valid_entries(entries: Seq<(Seq<char>, Json)>)
    ensures
        json::valid(Json::Object(entries)) <==> {
            &&& string_map::sorted(entries)
            &&& forall|i: int| 0 <= i < entries.len() ==> json::valid((#[trigger] entries[i]).1)
        },
{
    let json = Json::Object(entries);
    assert(json->Object_0 == entries);
}

proof fn lemma_valid_with_entry(entries: Seq<(Seq<char>, Json)>, key: Seq<char>, value: Json)
    requires
        json::valid(Json::Object(entries)),
        json::valid(value),
    ensures
        json::valid(Json::Object(string_map::with_entry(entries, key, value))),
{
    let after = string_map::with_entry(entries, key, value);
    lemma_valid_entries(entries);
    lemma_valid_entries(after);
    string_map::lemma_with_entry_sorted(entries, key, value);
    assert forall|i: int| 0 <= i < after.len() implies json::valid((#[trigger] after[i]).1) by {
        string_map::lemma_with_entry_entry(entries, key, value, i);
        if after[i] != (key, value) {
            let j = choose|j: int| 0 <= j < entries.len() && entries[j] == after[i];
            assert(json::valid(entries[j].1));
        }
    }
}

proof fn lemma_valid_without_key(entries: Seq<(Seq<char>, Json)>, key: Seq<char>)
    requires
        json::valid(Json::Object(entries)),
    ensures
        json::valid(Json::Object(string_map::without_key(entries, key))),
{
    let after = string_map::without_key(entries, key);
    lemma_valid_entries(entries);
    lemma_valid_entries(after);
    string_map::lemma_without_key_sorted(entries, key);
    string_map::lemma_slot_range(entries, key);
    assert forall|i: int| 0 <= i < after.len() implies json::valid((#[trigger] after[i]).1) by {
        if string_map::has_key(entries, key) {
            let j = if i < string_map::slot(entries, key) {
                i
            } else {
                i + 1
            };
            assert(after[i] == entries[j]);
        }
    }
}

/// The part that a segment selects, and values with a part put in, taken out or inserted.
proof fn lemma_valid_step(value: Json, segment: Segment, at: int, step: Step, part: Json)
    requires
        json::valid(value),
        segment matches Segment::Index(n) ==> n >= 0,
        apply::step_error(value, segment, at, step) is None,
    ensures
        !(step is Add) ==> json::valid(apply::child(value, segment)),
        !(step is Add) ==> json::valid(apply::remove_from(value, segment)),
        !(step is Add) && json::valid(part) ==> json::valid(
            apply::with_child(value, segment, part),
        ),
        step is Add && json::valid(part) ==> json::valid(apply::add_to(value, segment, part)),
{
    match (value, segment) {
        (Json::Object(entries), Segment::Key(key)) => {
            lemma_valid_entries(entries);
            lemma_valid_without_key(entries, key);
            if json::valid(part) {
                lemma_valid_with_entry(entries, key, part);
            }
            if !(step is Add) {
                string_map::lemma_slot_range(entries, key);
                assert(json::valid(entries[string_map::slot(entries, key)].1));
            }
        },
        (Json::Array(items), Segment::Index(index)) => {
            lemma_valid_items(items);
            if index < items.len() {
                lemma_valid_items(items.update(index, part));
                lemma_valid_items(items.remove(index));
                assert(json::valid(items[index]));
            }
            lemma_valid_items(items.insert(index, part));
        },
        (Json::Array(items), Segment::Key(_)) => {
            lemma_valid_items(items);
            lemma_valid_items(items.push(part));
        },
        _ => {},
    }
}

/// The value at a path, and values with one put there.
proof fn lemma_valid_path(value: Json, path: Seq<Segment>, at: int, step: Step, part: Json)
    requires
        0 <= at,
        paths::counted(path),
        step is Parent || step is Target,
        json::valid(value),
        apply::resolve(value, path, at, step) is Ok,
    ensures
        json::valid(apply::resolve(value, path, at, step)->Ok_0),
        json::valid(part) ==> json::valid(apply::put(value, path, at, part)),
    decreases path.len() - at,
{
    if at < path.len() {
        let next = apply::child(value, path[at]);
        lemma_valid_step(value, path[at], at, step, Json::Null);
        lemma_valid_path(next, path, at + 1, step, part);
        lemma_valid_step(value, path[at], at, step, apply::put(next, path, at + 1, part));
    }
}

/// The parent of a value, and documents with the parent changed.
proof fn lemma_valid_parent(
    root: Json,
    path: Seq<Segment>,
    step: Step,
    context: Seq<char>,
    part: Json,
)
    requires
        path.len() > 0,
        paths::counted(path),
        json::valid(root),
        apply::parent_at(root, path, step, context) is Ok,
    ensures
        ({
            let parent = apply::parent_at(root, path, step, context)->Ok_0;
            let front = path.drop_last();
            let last = path.last();
            &&& !(step is Add) ==> json::valid(apply::child(parent, last))
            &&& !(step is Add) ==> json::valid(
                apply::put(root, front, 0, apply::remove_from(parent, last)),
            )
            &&& !(step is Add) && json::valid(part) ==> json::valid(
                apply::put(root, front, 0, apply::with_child(parent, last, part)),
            )
            &&& step is Add && json::valid(part) ==> json::valid(
                apply::put(root, front, 0, apply::add_to(parent, last, part)),
            )
        }),
{
    let parent = apply::parent_at(root, path, step, context)->Ok_0;
    let front = path.drop_last();
    let last = path.last();
    assert(paths::counted(front)) by {
        assert forall|i: int| 0 <= i < front.len() implies (#[trigger] front[i] matches Segment::Index(
            n,
        ) ==> n >= 0) by {
            assert(front[i] == path[i]);
        }
    }
    assert(last == path[path.len() - 1]);
    lemma_valid_path(root, front, 0, Step::Parent, Json::Null);
    lemma_valid_step(parent, last, path.len() - 1, step, part);
    lemma_valid_path(root, front, 0, Step::Parent, apply::remove_from(parent, last));
    lemma_valid_path(root, front, 0, Step::Parent, apply::with_child(parent, last, part));
    lemma_valid_path(root, front, 0, Step::Parent, apply::add_to(parent, last, part));
}

/// The items of a patched array.
proof fn lemma_valid_patched(
    items: Seq<Json>,
    edits: Seq<Edit<Json>>,
    count: nat,
    words: PatchWording,
)
    requires
        count <= edits.len(),
        normal::counted_edits(edits),
        patch::first_edit_error(edits, count, items.len() as int, words) is None,
        json::valid(Json::Array(items)),
        forall|i: int|
            0 <= i < edits.len() ==> json::valid(Json::Array((#[trigger] edits[i]).items)),
    ensures
        json::valid(Json::Array(patch::patched(items, edits, count))),
        patch::patched(items, edits, count).len() >= if count == 0 {
            items.len() as int
        } else {
            edits[count - 1].start
        },
    decreases count,
{
    if count > 0 {
        let before = patch::patched(items, edits, (count - 1) as nat);
        let edit = edits[count - 1];
        lemma_valid_patched(items, edits, (count - 1) as nat, words);
        assert(patch::edit_error(edits, count - 1, items.len() as int, words) is None);
        let end = edit.start + edit.delete_count;
        assert(edit.start >= 0);
        assert(end <= before.len());
        let after = patch::spliced(before, edit);
        lemma_valid_items(before);
        lemma_valid_items(edit.items);
        lemma_valid_items(after);
        assert forall|i: int| 0 <= i < after.len() implies json::valid(#[trigger] after[i]) by {
            if i < edit.start {
                assert(after[i] == before[i]);
            } else if i < edit.start + edit.items.len() {
                assert(after[i] == edit.items[i - edit.start]);
            } else {
                assert(after[i] == before[i - edit.items.len() + edit.delete_count]);
            }
        }
    }
}

/// Adding a value.
proof fn lemma_valid_add(root: Json, path: Seq<Segment>, value: Json)
    requires
        json::valid(root),
        paths::counted(path),
        json::valid(value),
    ensures
        apply::add_at(root, path, value) matches Ok(after) ==> json::valid(after),
{
    if path.len() > 0 {
        let context = "while resolving an ADD path parent"@;
        if apply::parent_at(root, path, Step::Add, context) is Ok {
            lemma_valid_parent(root, path, Step::Add, context, value);
        }
    }
}

/// Applying an action to a document whose properties are in key order gives one whose properties
/// are so too.
pub proof fn lemma_valid_apply(root: Json, act: Act)
    requires
        json::valid(root),
        normal::counted_act(act),
        carries_valid_values(act),
    ensures
        apply::apply_act(root, act) matches Ok(after) ==> json::valid(after),
{
    match act {
        Act::Snapshot { .. } => {},
        Act::Add { path, value } => {
            lemma_valid_add(root, path, value);
        },
        Act::Remove { path } => {
            let context = "while resolving a REMOVE path parent"@;
            if path.len() > 0 && apply::parent_at(root, path, Step::Remove, context) is Ok {
                lemma_valid_parent(root, path, Step::Remove, context, Json::Null);
            }
        },
        Act::Replace { path, value } => {
            let context = "while resolving a REPLACE path parent"@;
            if path.len() > 0 && apply::parent_at(root, path, Step::Replace, context) is Ok {
                lemma_valid_parent(root, path, Step::Replace, context, value);
            }
        },
        Act::StringAppend { path, text } => {
            if let Ok(Json::String(target)) = apply::resolve(root, path, 0, Step::Target) {
                lemma_valid_path(root, path, 0, Step::Target, Json::String(target + text));
            }
        },
        Act::StringPrepend { path, text } => {
            if let Ok(Json::String(target)) = apply::resolve(root, path, 0, Step::Target) {
                lemma_valid_path(root, path, 0, Step::Target, Json::String(text + target));
            }
        },
        Act::StringPatch { path, edits } => {
            if let Ok(Json::String(target)) = apply::resolve(root, path, 0, Step::Target) {
                let text = patch::patched(target, edits, edits.len());
                lemma_valid_path(root, path, 0, Step::Target, Json::String(text));
            }
        },
        Act::ArrayPatch { path, edits } => {
            let words = apply::array_patch_wording();
            if let Ok(Json::Array(target)) = apply::resolve(root, path, 0, Step::Target) {
                lemma_valid_path(root, path, 0, Step::Target, Json::Null);
                if patch::edits_error(edits, target.len() as int, words) is None {
                    lemma_valid_patched(target, edits, edits.len(), words);
                    let after = Json::Array(patch::patched(target, edits, edits.len()));
                    lemma_valid_path(root, path, 0, Step::Target, after);
                }
            }
        },
        Act::Copy { from, path } => {
            if let Ok(value) = apply::resolve(root, from, 0, Step::Target) {
                lemma_valid_path(root, from, 0, Step::Target, Json::Null);
                lemma_valid_add(root, path, value);
            }
        },
        Act::Move { from, path } => {
            let context = "while resolving a MOVE from path parent"@;
            if from.len() > 0 && apply::parent_at(root, from, Step::Move, context) is Ok {
                lemma_valid_parent(root, from, Step::Move, context, Json::Null);
                if let Ok((value, rest)) = apply::take_at(root, from) {
                    lemma_valid_add(rest, path, value);
                }
            }
        },
    }
}

/// Applying actions to a document whose properties are in key order gives one whose properties
/// are so too.
pub proof fn law_actions_keep_key_order(document: Json, acts: Seq<Act>, count: nat)
    requires
        json::valid(document),
        count <= acts.len(),
        forall|i: int|
            0 <= i < acts.len() ==> normal::counted_act(#[trigger] acts[i])
                && carries_valid_values(acts[i]),
    ensures
        consumer::run(document, acts, count) matches Ok(after) ==> json::valid(after),
    decreases count,
{
    if count > 0 {
        law_actions_keep_key_order(document, acts, (count - 1) as nat);
        if let Ok(before) = consumer::run(document, acts, (count - 1) as nat) {
            assert(normal::counted_act(acts[count - 1]));
            lemma_valid_apply(before, acts[count - 1]);
        }
    }
}

} // verus!
