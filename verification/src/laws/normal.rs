//! Actions do not see the sign of zero floats.

use vstd::prelude::*;

use crate::apply;
use crate::apply::Step;
use crate::consumer;
use crate::error::ErrorModel;
use crate::json;
use crate::json::Json;
use crate::laws::paths;
use crate::message::action::{Act, Edit, Segment};
use crate::patch;
use crate::patch::PatchWording;
use crate::string_map;

verus! {

/// The items of an array up to the sign of zero floats.
pub open spec fn norm_items(items: Seq<Json>) -> Seq<Json> {
    Seq::new(items.len(), |i: int| json::norm(items[i]))
}

/// The properties of an object up to the sign of zero floats.
pub open spec fn norm_entries(entries: Seq<(Seq<char>, Json)>) -> Seq<(Seq<char>, Json)> {
    Seq::new(entries.len(), |i: int| (entries[i].0, json::norm(entries[i].1)))
}

/// An edit up to the sign of zero floats.
pub open spec fn norm_edit(edit: Edit<Json>) -> Edit<Json> {
    Edit { items: norm_items(edit.items), ..edit }
}

/// Edits up to the sign of zero floats.
pub open spec fn norm_edits(edits: Seq<Edit<Json>>) -> Seq<Edit<Json>> {
    Seq::new(edits.len(), |i: int| norm_edit(edits[i]))
}

/// An action up to the sign of zero floats.
pub open spec fn norm_act(act: Act) -> Act {
    match act {
        Act::Snapshot { value } => Act::Snapshot { value: json::norm(value) },
        Act::Add { path, value } => Act::Add { path, value: json::norm(value) },
        Act::Replace { path, value } => Act::Replace { path, value: json::norm(value) },
        Act::ArrayPatch { path, edits } => Act::ArrayPatch { path, edits: norm_edits(edits) },
        other => other,
    }
}

/// Actions up to the sign of zero floats.
pub open spec fn norm_acts(acts: Seq<Act>) -> Seq<Act> {
    Seq::new(acts.len(), |i: int| norm_act(acts[i]))
}

/// A result up to the sign of zero floats.
pub open spec fn norm_result(result: Result<Json, ErrorModel>) -> Result<Json, ErrorModel> {
    match result {
        Ok(value) => Ok(json::norm(value)),
        Err(e) => Err(e),
    }
}

/// An array up to the sign of zero floats.
pub proof fn lemma_norm_array(items: Seq<Json>)
    ensures
        json::norm(Json::Array(items)) == Json::Array(norm_items(items)),
{
    assert(json::norm(Json::Array(items))->Array_0 =~= norm_items(items));
}

/// An object up to the sign of zero floats.
pub proof fn lemma_norm_object(entries: Seq<(Seq<char>, Json)>)
    ensures
        json::norm(Json::Object(entries)) == Json::Object(norm_entries(entries)),
{
    assert(json::norm(Json::Object(entries))->Object_0 =~= norm_entries(entries));
}

/// Looking up a key does not see the sign of zero floats.
pub proof fn lemma_norm_lookup(entries: Seq<(Seq<char>, Json)>, key: Seq<char>)
    ensures
        string_map::slot(norm_entries(entries), key) == string_map::slot(entries, key),
        string_map::has_key(norm_entries(entries), key) == string_map::has_key(entries, key),
        string_map::has_key(entries, key) ==> string_map::lookup(norm_entries(entries), key)
            == json::norm(string_map::lookup(entries, key)),
{
    string_map::lemma_slot_keys(entries, norm_entries(entries), key);
    string_map::lemma_slot_range(entries, key);
}

proof fn lemma_norm_put(entries: Seq<(Seq<char>, Json)>, key: Seq<char>, value: Json)
    ensures
        norm_entries(string_map::with_entry(entries, key, value)) == string_map::with_entry(
            norm_entries(entries),
            key,
            json::norm(value),
        ),
{
    lemma_norm_lookup(entries, key);
    string_map::lemma_slot_range(entries, key);
    assert(norm_entries(string_map::with_entry(entries, key, value)) =~= string_map::with_entry(
        norm_entries(entries),
        key,
        json::norm(value),
    ));
}

proof fn lemma_norm_removed(entries: Seq<(Seq<char>, Json)>, key: Seq<char>)
    ensures
        norm_entries(string_map::without_key(entries, key)) == string_map::without_key(
            norm_entries(entries),
            key,
        ),
{
    lemma_norm_lookup(entries, key);
    string_map::lemma_slot_range(entries, key);
    assert(norm_entries(string_map::without_key(entries, key)) =~= string_map::without_key(
        norm_entries(entries),
        key,
    ));
}

/// Following a segment does not see the sign of zero floats.
proof fn lemma_norm_step(value: Json, segment: Segment, at: int, step: Step)
    requires
        segment matches Segment::Index(n) ==> n >= 0,
    ensures
        apply::step_error(json::norm(value), segment, at, step) == apply::step_error(
            value,
            segment,
            at,
            step,
        ),
        apply::step_error(value, segment, at, step) is None && !(step is Add) ==> {
            &&& apply::child(json::norm(value), segment) == json::norm(
                apply::child(value, segment),
            )
            &&& forall|part: Json| #[trigger]
                json::norm(apply::with_child(value, segment, part)) == apply::with_child(
                    json::norm(value),
                    segment,
                    json::norm(part),
                )
            &&& json::norm(apply::remove_from(value, segment)) == apply::remove_from(
                json::norm(value),
                segment,
            )
        },
        apply::step_error(value, segment, at, step) is None && step is Add ==> {
            forall|part: Json| #[trigger]
                json::norm(apply::add_to(value, segment, part)) == apply::add_to(
                    json::norm(value),
                    segment,
                    json::norm(part),
                )
        },
{
    match value {
        Json::Object(entries) => {
            lemma_norm_object(entries);
            if let Segment::Key(key) = segment {
                lemma_norm_lookup(entries, key);
                lemma_norm_removed(entries, key);
                lemma_norm_object(string_map::without_key(entries, key));
                assert forall|part: Json|
                    norm_entries(#[trigger] string_map::with_entry(entries, key, part))
                        == string_map::with_entry(norm_entries(entries), key, json::norm(part))
                        && json::norm(Json::Object(string_map::with_entry(entries, key, part)))
                        == Json::Object(
                        norm_entries(string_map::with_entry(entries, key, part)),
                    ) by {
                    lemma_norm_put(entries, key, part);
                    lemma_norm_object(string_map::with_entry(entries, key, part));
                }
            }
        },
        Json::Array(items) => {
            lemma_norm_array(items);
            if let Segment::Index(index) = segment {
                if index < items.len() {
                    lemma_norm_array(items.remove(index));
                    assert(norm_items(items.remove(index)) =~= norm_items(items).remove(index));
                    assert forall|part: Json|
                        json::norm(Json::Array(#[trigger] items.update(index, part)))
                            == Json::Array(norm_items(items).update(index, json::norm(part))) by {
                        lemma_norm_array(items.update(index, part));
                        assert(norm_items(items.update(index, part)) =~= norm_items(items).update(
                            index,
                            json::norm(part),
                        ));
                    }
                }
                if index <= items.len() {
                    assert forall|part: Json|
                        json::norm(Json::Array(#[trigger] items.insert(index, part)))
                            == Json::Array(norm_items(items).insert(index, json::norm(part))) by {
                        lemma_norm_array(items.insert(index, part));
                        assert(norm_items(items.insert(index, part)) =~= norm_items(items).insert(
                            index,
                            json::norm(part),
                        ));
                    }
                }
            } else {
                assert forall|part: Json|
                    json::norm(Json::Array(#[trigger] items.push(part))) == Json::Array(
                        norm_items(items).push(json::norm(part)),
                    ) by {
                    lemma_norm_array(items.push(part));
                    assert(norm_items(items.push(part)) =~= norm_items(items).push(
                        json::norm(part),
                    ));
                }
            }
        },
        _ => {},
    }
}

/// Following a path does not see the sign of zero floats.
pub proof fn lemma_norm_resolve(value: Json, path: Seq<Segment>, at: int, step: Step)
    requires
        0 <= at,
        paths::counted(path),
        step is Parent || step is Target,
    ensures
        apply::resolve(json::norm(value), path, at, step) == norm_result(
            apply::resolve(value, path, at, step),
        ),
        apply::resolve(value, path, at, step) is Ok ==> forall|part: Json| #[trigger]
            json::norm(apply::put(value, path, at, part)) == apply::put(
                json::norm(value),
                path,
                at,
                json::norm(part),
            ),
    decreases path.len() - at,
{
    if at < path.len() {
        lemma_norm_step(value, path[at], at, step);
        if apply::step_error(value, path[at], at, step) is None {
            let next = apply::child(value, path[at]);
            lemma_norm_resolve(next, path, at + 1, step);
            if apply::resolve(value, path, at, step) is Ok {
                assert forall|part: Json| #[trigger]
                    json::norm(apply::put(value, path, at, part)) == apply::put(
                    json::norm(value),
                    path,
                    at,
                    json::norm(part),
                ) by {
                    let inner = apply::put(next, path, at + 1, part);
                    assert(json::norm(inner) == apply::put(
                        json::norm(next),
                        path,
                        at + 1,
                        json::norm(part),
                    ));
                    assert(json::norm(apply::with_child(value, path[at], inner))
                        == apply::with_child(json::norm(value), path[at], json::norm(inner)));
                }
            }
        }
    }
}

/// Whether no position of an edit is negative.
pub open spec fn counted_edits<T>(edits: Seq<Edit<T>>) -> bool {
    forall|i: int|
        0 <= i < edits.len() ==> (#[trigger] edits[i]).start >= 0 && edits[i].delete_count >= 0
}

/// Whether no index and no position of an action is negative.
pub open spec fn counted_act(act: Act) -> bool {
    match act {
        Act::Snapshot { .. } => true,
        Act::Add { path, .. } => paths::counted(path),
        Act::Remove { path } => paths::counted(path),
        Act::Replace { path, .. } => paths::counted(path),
        Act::StringAppend { path, .. } => paths::counted(path),
        Act::StringPrepend { path, .. } => paths::counted(path),
        Act::StringPatch { path, .. } => paths::counted(path),
        Act::ArrayPatch { path, edits } => paths::counted(path) && counted_edits(edits),
        Act::Copy { from, path } => paths::counted(from) && paths::counted(path),
        Act::Move { from, path } => paths::counted(from) && paths::counted(path),
    }
}

proof fn lemma_norm_edit_error(
    edits: Seq<Edit<Json>>,
    count: nat,
    length: int,
    words: PatchWording,
)
    requires
        count <= edits.len(),
    ensures
        patch::first_edit_error(norm_edits(edits), count, length, words)
            == patch::first_edit_error(edits, count, length, words),
    decreases count,
{
    if count > 0 {
        lemma_norm_edit_error(edits, (count - 1) as nat, length, words);
        assert(norm_edits(edits)[count - 1] == norm_edit(edits[count - 1]));
        if count > 1 {
            assert(norm_edits(edits)[count - 2] == norm_edit(edits[count - 2]));
        }
    }
}

/// Edits in descending order do not see the sign of zero floats, and leave what stands in front
/// of them.
proof fn lemma_norm_patched(
    items: Seq<Json>,
    edits: Seq<Edit<Json>>,
    count: nat,
    words: PatchWording,
)
    requires
        count <= edits.len(),
        counted_edits(edits),
        patch::first_edit_error(edits, count, items.len() as int, words) is None,
    ensures
        norm_items(patch::patched(items, edits, count)) == patch::patched(
            norm_items(items),
            norm_edits(edits),
            count,
        ),
        patch::patched(items, edits, count).len() >= if count == 0 {
            items.len() as int
        } else {
            edits[count - 1].start
        },
    decreases count,
{
    if count > 0 {
        let before = patch::patched(items, edits, (count - 1) as nat);
        let edit = edits[count - 1];
        lemma_norm_patched(items, edits, (count - 1) as nat, words);
        assert(patch::edit_error(edits, count - 1, items.len() as int, words) is None);
        assert(norm_edits(edits)[count - 1] == norm_edit(edit));
        let end = edit.start + edit.delete_count;
        assert(edits[count - 1].start >= 0);
        assert(end <= before.len());
        assert(norm_items(patch::spliced(before, edit)) =~= patch::spliced(
            norm_items(before),
            norm_edit(edit),
        ));
    }
}

/// Applying an action does not see the sign of zero floats.
pub proof fn lemma_norm_apply(root: Json, act: Act)
    requires
        counted_act(act),
    ensures
        apply::apply_act(json::norm(root), norm_act(act)) == norm_result(
            apply::apply_act(root, act),
        ),
{
    match act {
        Act::Snapshot { .. } => {},
        Act::Add { path, value } => {
            lemma_norm_add(root, path, value);
        },
        Act::Remove { path } => {
            if path.len() > 0 {
                lemma_norm_parent(root, path, Step::Remove, "while resolving a REMOVE path parent"@);
            }
        },
        Act::Replace { path, value } => {
            if path.len() > 0 {
                lemma_norm_parent(
                    root,
                    path,
                    Step::Replace,
                    "while resolving a REPLACE path parent"@,
                );
            }
        },
        Act::StringAppend { path, text } => {
            lemma_norm_resolve(root, path, 0, Step::Target);
            lemma_norm_kind(apply::resolve(root, path, 0, Step::Target)->Ok_0);
            if let Ok(Json::String(target)) = apply::resolve(root, path, 0, Step::Target) {
                lemma_norm_put_string(root, path, target + text);
            }
        },
        Act::StringPrepend { path, text } => {
            lemma_norm_resolve(root, path, 0, Step::Target);
            lemma_norm_kind(apply::resolve(root, path, 0, Step::Target)->Ok_0);
            if let Ok(Json::String(target)) = apply::resolve(root, path, 0, Step::Target) {
                lemma_norm_put_string(root, path, text + target);
            }
        },
        Act::StringPatch { path, edits } => {
            lemma_norm_resolve(root, path, 0, Step::Target);
            lemma_norm_kind(apply::resolve(root, path, 0, Step::Target)->Ok_0);
            if let Ok(Json::String(target)) = apply::resolve(root, path, 0, Step::Target) {
                lemma_norm_put_string(root, path, patch::patched(target, edits, edits.len()));
            }
        },
        Act::ArrayPatch { path, edits } => {
            lemma_norm_array_patch(root, path, edits);
        },
        Act::Copy { from, path } => {
            lemma_norm_resolve(root, from, 0, Step::Target);
            if let Ok(value) = apply::resolve(root, from, 0, Step::Target) {
                lemma_norm_add(root, path, value);
            }
        },
        Act::Move { from, path } => {
            if from.len() > 0 {
                lemma_norm_parent(
                    root,
                    from,
                    Step::Move,
                    "while resolving a MOVE from path parent"@,
                );
                if let Ok((value, rest)) = apply::take_at(root, from) {
                    lemma_norm_add(rest, path, value);
                }
            }
        },
    }
}

/// A value is of the same kind whatever the sign of its zero floats.
proof fn lemma_norm_kind(value: Json)
    ensures
        value is String == json::norm(value) is String,
        value is String ==> json::norm(value) == value,
        value is Array == json::norm(value) is Array,
{
}

proof fn lemma_norm_put_string(root: Json, path: Seq<Segment>, text: Seq<char>)
    requires
        paths::counted(path),
        apply::resolve(root, path, 0, Step::Target) is Ok,
    ensures
        json::norm(apply::put(root, path, 0, Json::String(text))) == apply::put(
            json::norm(root),
            path,
            0,
            Json::String(text),
        ),
{
    lemma_norm_resolve(root, path, 0, Step::Target);
    assert(json::norm(Json::String(text)) == Json::String(text));
}

/// Finding the parent of a value, and changing it, does not see the sign of zero floats.
proof fn lemma_norm_parent(root: Json, path: Seq<Segment>, step: Step, context: Seq<char>)
    requires
        path.len() > 0,
        paths::counted(path),
    ensures
        apply::parent_at(json::norm(root), path, step, context) == norm_result(
            apply::parent_at(root, path, step, context),
        ),
        apply::parent_at(root, path, step, context) matches Ok(parent) ==> {
            let front = path.drop_last();
            let last = path.last();
            &&& !(step is Add) ==> {
                &&& apply::child(json::norm(parent), last) == json::norm(
                    apply::child(parent, last),
                )
                &&& json::norm(apply::put(root, front, 0, apply::remove_from(parent, last)))
                    == apply::put(
                    json::norm(root),
                    front,
                    0,
                    apply::remove_from(json::norm(parent), last),
                )
                &&& forall|part: Json|
                    json::norm(
                        apply::put(root, front, 0, #[trigger] apply::with_child(parent, last, part)),
                    ) == apply::put(
                        json::norm(root),
                        front,
                        0,
                        apply::with_child(json::norm(parent), last, json::norm(part)),
                    )
            }
            &&& step is Add ==> forall|part: Json|
                json::norm(apply::put(root, front, 0, #[trigger] apply::add_to(parent, last, part)))
                    == apply::put(
                    json::norm(root),
                    front,
                    0,
                    apply::add_to(json::norm(parent), last, json::norm(part)),
                )
        },
{
    let front = path.drop_last();
    let last = path.last();
    assert(paths::counted(front)) by {
        assert forall|i: int| 0 <= i < front.len() implies (#[trigger] front[i] matches Segment::Index(
            n,
        ) ==> n >= 0) by {
            assert(front[i] == path[i]);
        }
    }
    assert(last == path[path.len() - 1]);
    lemma_norm_resolve(root, front, 0, Step::Parent);
    if let Ok(parent) = apply::resolve(root, front, 0, Step::Parent) {
        lemma_norm_step(parent, last, path.len() - 1, step);
        if apply::parent_at(root, path, step, context) is Ok {
            if step is Add {
                assert forall|part: Json|
                    json::norm(
                        apply::put(root, front, 0, #[trigger] apply::add_to(parent, last, part)),
                    ) == apply::put(
                        json::norm(root),
                        front,
                        0,
                        apply::add_to(json::norm(parent), last, json::norm(part)),
                    ) by {
                    let inner = apply::add_to(parent, last, part);
                    assert(json::norm(inner) == apply::add_to(
                        json::norm(parent),
                        last,
                        json::norm(part),
                    ));
                }
            } else {
                assert forall|part: Json|
                    json::norm(
                        apply::put(root, front, 0, #[trigger] apply::with_child(parent, last, part)),
                    ) == apply::put(
                        json::norm(root),
                        front,
                        0,
                        apply::with_child(json::norm(parent), last, json::norm(part)),
                    ) by {
                    let inner = apply::with_child(parent, last, part);
                    assert(json::norm(inner) == apply::with_child(
                        json::norm(parent),
                        last,
                        json::norm(part),
                    ));
                }
            }
        }
    }
}

proof fn lemma_norm_add(root: Json, path: Seq<Segment>, value: Json)
    requires
        paths::counted(path),
    ensures
        apply::add_at(json::norm(root), path, json::norm(value)) == norm_result(
            apply::add_at(root, path, value),
        ),
{
    if path.len() > 0 {
        lemma_norm_parent(root, path, Step::Add, "while resolving an ADD path parent"@);
    }
}

proof fn lemma_norm_array_patch(root: Json, path: Seq<Segment>, edits: Seq<Edit<Json>>)
    requires
        paths::counted(path),
        counted_edits(edits),
    ensures
        apply::array_patch_at(json::norm(root), path, norm_edits(edits)) == norm_result(
            apply::array_patch_at(root, path, edits),
        ),
{
    lemma_norm_resolve(root, path, 0, Step::Target);
    if let Ok(value) = apply::resolve(root, path, 0, Step::Target) {
        lemma_norm_kind(value);
        if let Json::Array(target) = value {
            let words = apply::array_patch_wording();
            lemma_norm_array(target);
            lemma_norm_edit_error(edits, edits.len(), target.len() as int, words);
            if patch::edits_error(edits, target.len() as int, words) is None {
                lemma_norm_patched(target, edits, edits.len(), words);
                lemma_norm_array(patch::patched(target, edits, edits.len()));
                let after = Json::Array(patch::patched(target, edits, edits.len()));
                assert(json::norm(apply::put(root, path, 0, after)) == apply::put(
                    json::norm(root),
                    path,
                    0,
                    json::norm(after),
                ));
            }
        }
    }
}

/// Applying actions does not see the sign of zero floats.
pub proof fn lemma_norm_run(document: Json, acts: Seq<Act>, count: nat)
    requires
        count <= acts.len(),
        forall|i: int| 0 <= i < acts.len() ==> counted_act(#[trigger] acts[i]),
    ensures
        consumer::run(json::norm(document), norm_acts(acts), count) == norm_result(
            consumer::run(document, acts, count),
        ),
    decreases count,
{
    if count > 0 {
        lemma_norm_run(document, acts, (count - 1) as nat);
        if let Ok(before) = consumer::run(document, acts, (count - 1) as nat) {
            assert(counted_act(acts[count - 1]));
            lemma_norm_apply(before, acts[count - 1]);
        }
        assert(norm_acts(acts)[count - 1] == norm_act(acts[count - 1]));
    }
}

/// Documents that are the same stay so: the same actions succeed on both, with results that are
/// the same, or fail on both with the same error.
pub proof fn law_same_documents_stay_the_same(a: Json, b: Json, acts: Seq<Act>)
    requires
        json::same(a, b),
        forall|i: int| 0 <= i < acts.len() ==> counted_act(#[trigger] acts[i]),
    ensures
        match (consumer::run(a, acts, acts.len()), consumer::run(b, acts, acts.len())) {
            (Ok(x), Ok(y)) => json::same(x, y),
            (Err(x), Err(y)) => x == y,
            _ => false,
        },
{
    lemma_norm_run(a, acts, acts.len());
    lemma_norm_run(b, acts, acts.len());
}

} // verus!
