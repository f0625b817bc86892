//! Plans that turn one document into another.

use vstd::prelude::*;

use crate::error::JsyncError;
use crate::json;
use crate::json::{Json, JsonValue};
use crate::message::action;
use crate::message::action::{Act, Action, PathSegment, Segment};
use crate::message::encoder;
use crate::message::json_cbor;
use crate::message::pool::ProducerPathSegmentPool;
use crate::producer::arrays;
use crate::producer::cost;
use crate::producer::cost::DiffPlan;
use crate::producer::objects;
use crate::producer::strings;
use crate::string_map;
use crate::string_map::StringMap;

verus! {

/// Whether both values are arrays, one of which begins with the other and goes on.
pub open spec fn only_end_differs(from: Json, to: Json) -> bool {
    match (from, to) {
        (Json::Array(old), Json::Array(new)) => {
            &&& old.len() != new.len()
            &&& forall|i: int|
                0 <= i < shorter(old.len(), new.len()) ==> json::same(#[trigger] old[i], new[i])
        },
        _ => false,
    }
}

/// Whether two objects have a key under which the values are arrays that differ at their end only.
pub open spec fn has_end_change(
    old: Seq<(Seq<char>, Json)>,
    new: Seq<(Seq<char>, Json)>,
) -> bool {
    exists|i: int|
        0 <= i < old.len() && string_map::has_key(new, (#[trigger] old[i]).0) && only_end_differs(
            old[i].1,
            string_map::lookup(new, old[i].0),
        )
}

/// Whether a value is changed part by part whatever that costs. Without array patches these are an
/// array under a key of the root that loses or gains items at its end only, and a root that holds
/// such an array.
pub open spec fn in_parts(from: Json, to: Json, path: Seq<Segment>, patches: bool) -> bool {
    !patches && match (from, to) {
        (Json::Object(old), Json::Object(new)) => path.len() == 0 && has_end_change(old, new),
        _ => path.len() == 1 && path[0] is Key && only_end_differs(from, to),
    }
}

/// The plan to change the parts of a value, or to replace it where that is cheaper and the value
/// need not be changed in parts.
pub open spec fn parts_or_whole(
    parts: Seq<Act>,
    from: Json,
    to: Json,
    path: Seq<Segment>,
    pool: Seq<Segment>,
    patches: bool,
) -> Seq<Act> {
    if in_parts(from, to, path, patches) {
        parts
    } else {
        cost::cheaper(parts, seq![Act::Replace { path, value: to }], pool)
    }
}

/// The plan that turns the value at a path into another one. Nothing is done to a value that is
/// the same. A value without parts is replaced, and so is one that need not be changed in parts if
/// replacing is cheaper. Arrays are changed by patches only where these are allowed.
pub open spec fn diff(
    from: Json,
    to: Json,
    path: Seq<Segment>,
    pool: Seq<Segment>,
    patches: bool,
) -> Seq<Act>
    decreases from, 0nat,
{
    if json::same(from, to) {
        Seq::empty()
    } else {
        match (from, to) {
            (Json::Object(old), Json::Object(new)) => parts_or_whole(
                object_acts(old, new, path, pool, patches),
                from,
                to,
                path,
                pool,
                patches,
            ),
            (Json::Array(old), Json::Array(new)) => parts_or_whole(
                array_acts(old, new, path, pool, patches),
                from,
                to,
                path,
                pool,
                patches,
            ),
            (Json::String(old), Json::String(new)) => strings::string_acts(old, new, path, pool),
            _ => seq![Act::Replace { path, value: to }],
        }
    }
}

/// The plan that changes the properties of an object: values are moved, removed, copied, changed
/// and added, in this order.
pub open spec fn object_acts(
    old: Seq<(Seq<char>, Json)>,
    new: Seq<(Seq<char>, Json)>,
    path: Seq<Segment>,
    pool: Seq<Segment>,
    patches: bool,
) -> Seq<Act>
    decreases old, old.len() + 1,
{
    let moved = objects::moves(old, new, path, pool, objects::removed_keys(old, new).len());
    let copied = objects::copies(moved.added, old, new, path, pool, moved.added.len());
    moved.acts + objects::remove_acts(moved.removed, path) + copied.acts + entry_acts(
        old,
        new,
        path,
        pool,
        patches,
        old.len(),
    ) + objects::add_acts(copied.added, new, path)
}

/// The plan that changes the values under the first `count` keys that both objects have.
pub open spec fn entry_acts(
    old: Seq<(Seq<char>, Json)>,
    new: Seq<(Seq<char>, Json)>,
    path: Seq<Segment>,
    pool: Seq<Segment>,
    patches: bool,
    count: nat,
) -> Seq<Act>
    decreases old, count,
{
    if count == 0 || count > old.len() {
        Seq::empty()
    } else {
        let entry = old[count - 1];
        let before = entry_acts(old, new, path, pool, patches, (count - 1) as nat);
        if string_map::has_key(new, entry.0) {
            proof {
                assert(decreases_to!(old => old[count - 1]));
                assert(decreases_to!(entry => entry.1));
            }
            before + diff(
                entry.1,
                string_map::lookup(new, entry.0),
                objects::property(path, entry.0),
                pool,
                patches,
            )
        } else {
            before
        }
    }
}

/// The path of an item.
pub open spec fn element(path: Seq<Segment>, index: int) -> Seq<Segment> {
    path.push(Segment::Index(index))
}

/// The plan that changes the first `count` items of an array.
pub open spec fn item_acts(
    old: Seq<Json>,
    new: Seq<Json>,
    path: Seq<Segment>,
    pool: Seq<Segment>,
    patches: bool,
    count: nat,
) -> Seq<Act>
    decreases old, count,
{
    if count == 0 || count > old.len() {
        Seq::empty()
    } else {
        item_acts(old, new, path, pool, patches, (count - 1) as nat) + diff(
            old[count - 1],
            new[count - 1],
            element(path, count - 1),
            pool,
            patches,
        )
    }
}

/// The shorter one of two lengths.
pub open spec fn shorter(a: nat, b: nat) -> nat {
    if a < b {
        a
    } else {
        b
    }
}

/// The actions that remove the items of an array from its end on, until `left` are left.
pub open spec fn shrink_acts(length: nat, left: nat, path: Seq<Segment>) -> Seq<Act> {
    Seq::new(
        (length - left) as nat,
        |i: int| Act::Remove { path: element(path, length - 1 - i) },
    )
}

/// The actions that add the items of an array that stand behind the first `length`.
pub open spec fn grow_acts(new: Seq<Json>, length: nat, path: Seq<Segment>) -> Seq<Act> {
    Seq::new(
        (new.len() - length) as nat,
        |i: int| Act::Add { path: element(path, length + i), value: new[length + i] },
    )
}

/// The plan that changes the items of an array in place, and its length.
pub open spec fn itemwise_acts(
    old: Seq<Json>,
    new: Seq<Json>,
    path: Seq<Segment>,
    pool: Seq<Segment>,
    patches: bool,
) -> Seq<Act>
    decreases old, old.len() + 1,
{
    let common = shorter(old.len(), new.len());
    item_acts(old, new, path, pool, patches, common) + shrink_acts(old.len(), common, path)
        + grow_acts(new, common, path)
}

/// The plan that changes an array: item by item, or by the cheaper one of two patches where these
/// are allowed and cheaper still.
pub open spec fn array_acts(
    old: Seq<Json>,
    new: Seq<Json>,
    path: Seq<Segment>,
    pool: Seq<Segment>,
    patches: bool,
) -> Seq<Act>
    decreases old, old.len() + 2,
{
    let itemwise = itemwise_acts(old, new, path, pool, patches);
    if patches {
        cost::consider(
            cost::consider(itemwise, arrays::single_patch_acts(old, new, path), pool),
            arrays::script_patch_acts(old, new, path),
            pool,
        )
    } else {
        itemwise
    }
}

/// Appends actions to others.
fn extend(actions: &mut Vec<Action>, more: Vec<Action>)
    ensures
        action::action_views(final(actions)@) == action::action_views(old(actions)@)
            + action::action_views(more@),
        encoder::all_safe(action::action_views(old(actions)@)) && encoder::all_safe(
            action::action_views(more@),
        ) ==> encoder::all_safe(action::action_views(final(actions)@)),
{
    let mut more = more;
    let ghost before = actions@;
    let ghost added = more@;
    actions.append(&mut more);
    proof {
        let a = action::action_views(before);
        let b = action::action_views(added);
        assert(action::action_views(actions@) =~= a + b);
        if encoder::all_safe(a) && encoder::all_safe(b) {
            assert forall|j: int| 0 <= j < (a + b).len() implies encoder::first_unsafe_number(
                #[trigger] (a + b)[j],
            ) is None by {
                if j < a.len() {
                    assert((a + b)[j] == a[j]);
                } else {
                    assert((a + b)[j] == b[j - a.len()]);
                }
            }
        }
    }
}

/// Plans to replace the value at a path.
fn replace_plan(
    path: &[PathSegment],
    value: &JsonValue,
    path_segment_pool: &ProducerPathSegmentPool,
) -> (result: Result<DiffPlan, JsyncError>)
    ensures
        match result {
            Ok(plan) => {
                &&& json_cbor::first_unsafe(value@) is None
                &&& plan.well_formed(path_segment_pool@)
                &&& plan.acts() == seq![
                    Act::Replace { path: action::path_view(path@), value: value@ },
                ]
            },
            Err(e) => {
                &&& json_cbor::first_unsafe(value@) is Some
                &&& e@ == json_cbor::unsafe_number_error(json_cbor::first_unsafe(value@)->0)
            },
        },
{
    let mut actions: Vec<Action> = Vec::new();
    let action = Action::Replace { path: action::copy_path(path), value: value.clone() };
    actions.push(action);
    proof {
        let acts = action::action_views(actions@);
        assert(acts =~= seq![action@]);
        encoder::lemma_single_error(action@);
    }
    cost::plan(actions, path_segment_pool)
}

/// Tells whether both values are arrays, one of which begins with the other and goes on.
fn is_end_change(from: &JsonValue, to: &JsonValue) -> (only_end: bool)
    ensures
        only_end == only_end_differs(from@, to@),
{
    broadcast use json::lemma_array_view;

    match (from, to) {
        (JsonValue::Array(old), JsonValue::Array(new)) => {
            let ghost a = json::json_views(old@);
            let ghost b = json::json_views(new@);
            let mut i: usize = 0;
            while i < old.len() && i < new.len()
                invariant
                    i <= old@.len(),
                    i <= new@.len(),
                    a == json::json_views(old@),
                    b == json::json_views(new@),
                    forall|j: int| 0 <= j < i ==> json::same(#[trigger] a[j], b[j]),
                    from@ == Json::Array(a),
                    to@ == Json::Array(b),
                decreases old@.len() - i,
            {
                assert(a[i as int] == old@[i as int]@);
                assert(b[i as int] == new@[i as int]@);
                if !json::same_value(&old[i], &new[i]) {
                    assert(!json::same(a[i as int], b[i as int]));
                    return false;
                }
                i = i + 1;
            }
            old.len() != new.len()
        },
        _ => false,
    }
}

/// Tells whether two objects have a key under which the values are arrays that differ at their end
/// only.
fn holds_end_change(old: &StringMap<JsonValue>, new: &StringMap<JsonValue>) -> (holds: bool)
    ensures
        holds == has_end_change(json::entry_views(old.entries()), json::entry_views(new.entries())),
{
    let ghost from = json::entry_views(old.entries());
    let ghost to = json::entry_views(new.entries());
    let count: usize = old.len();
    let mut i: usize = 0;
    while i < count
        invariant
            i <= count == from.len(),
            from == json::entry_views(old.entries()),
            to == json::entry_views(new.entries()),
            forall|j: int|
                0 <= j < i ==> !(string_map::has_key(to, (#[trigger] from[j]).0)
                    && only_end_differs(from[j].1, string_map::lookup(to, from[j].0))),
        decreases count - i,
    {
        let key: &String = old.key_at(i);
        let value: &JsonValue = old.value_at(i);
        proof {
            assert(from[i as int] == (key@, value@));
            json::lemma_has_key(new.entries(), key@);
        }
        if let Some(current) = new.get(key.as_str()) {
            proof {
                string_map::lemma_slot_range(to, key@);
                assert(to[string_map::slot(to, key@)].1 == current@);
            }
            if is_end_change(value, current) {
                assert(only_end_differs(
                    from[i as int].1,
                    string_map::lookup(to, from[i as int].0),
                ));
                return true;
            }
        }
        i = i + 1;
    }
    false
}

/// Tells whether a value is changed part by part whatever that costs.
fn is_changed_in_parts(
    from: &JsonValue,
    to: &JsonValue,
    path: &[PathSegment],
    array_patches: bool,
) -> (always: bool)
    ensures
        always == in_parts(from@, to@, action::path_view(path@), array_patches),
{
    broadcast use {json::lemma_array_view, json::lemma_object_view};

    let ghost at = action::path_view(path@);
    assert(at.len() == path@.len());
    if array_patches {
        return false;
    }
    match (from, to) {
        (JsonValue::Object(old), JsonValue::Object(new)) => path.len() == 0 && holds_end_change(
            old,
            new,
        ),
        _ => {
            if path.len() != 1 {
                return false;
            }
            assert(at[0] == path@[0]@);
            matches!(path[0], PathSegment::Key(_)) && is_end_change(from, to)
        },
    }
}

/// Plans to turn the value at a path into another one.
///
/// Fails on a number of the new value that may not stand in a message. The old value holds none.
pub fn build_diff(
    from: &JsonValue,
    to: &JsonValue,
    path: &[PathSegment],
    path_segment_pool: &ProducerPathSegmentPool,
    array_patches: bool,
) -> (result: Result<DiffPlan, JsyncError>)
    requires
        json_cbor::first_unsafe(from@) is None,
    ensures
        match result {
            Ok(plan) => {
                &&& json::same(from@, to@) || json_cbor::first_unsafe(to@) is None
                &&& plan.well_formed(path_segment_pool@)
                &&& plan.acts() == diff(
                    from@,
                    to@,
                    action::path_view(path@),
                    path_segment_pool@,
                    array_patches,
                )
            },
            Err(e) => {
                &&& !json::same(from@, to@)
                &&& json_cbor::first_unsafe(to@) is Some
                &&& e@ == json_cbor::unsafe_number_error(json_cbor::first_unsafe(to@)->0)
            },
        },
    decreases from@, 2nat,
{
    broadcast use {json::lemma_array_view, json::lemma_object_view};

    if json::same_value(from, to) {
        let plan = DiffPlan { actions: Vec::new(), cost: 0 };
        assert(plan.acts() =~= Seq::empty());
        return Ok(plan);
    }
    let replace = match replace_plan(path, to, path_segment_pool) {
        Ok(plan) => plan,
        Err(e) => return Err(e),
    };
    let structural = match (from, to) {
        (JsonValue::Object(old), JsonValue::Object(new)) => diff_objects(
            old,
            new,
            path,
            path_segment_pool,
            array_patches,
        ),
        (JsonValue::Array(old), JsonValue::Array(new)) => diff_arrays(
            old,
            new,
            path,
            path_segment_pool,
            array_patches,
        ),
        (JsonValue::String(old), JsonValue::String(new)) => {
            return strings::diff_strings(
                old.as_str(),
                new.as_str(),
                path,
                replace,
                path_segment_pool,
            );
        },
        _ => {
            return Ok(replace);
        },
    };
    match structural {
        Ok(plan) => if is_changed_in_parts(from, to, path, array_patches) {
            Ok(plan)
        } else {
            Ok(cost::choose_cheaper(plan, replace, Ghost(path_segment_pool@)))
        },
        Err(e) => Err(e),
    }
}

/// Plans to change the properties of an object.
pub fn diff_objects(
    old: &StringMap<JsonValue>,
    new: &StringMap<JsonValue>,
    path: &[PathSegment],
    path_segment_pool: &ProducerPathSegmentPool,
    array_patches: bool,
) -> (result: Result<DiffPlan, JsyncError>)
    requires
        json_cbor::first_unsafe(Json::Object(json::entry_views(old.entries()))) is None,
        json_cbor::first_unsafe(Json::Object(json::entry_views(new.entries()))) is None,
    ensures
        result matches Ok(plan) && {
            &&& plan.well_formed(path_segment_pool@)
            &&& plan.acts() == object_acts(
                json::entry_views(old.entries()),
                json::entry_views(new.entries()),
                action::path_view(path@),
                path_segment_pool@,
                array_patches,
            )
        },
    decreases Json::Object(json::entry_views(old.entries())), 1nat,
{
    let ghost from = json::entry_views(old.entries());
    let ghost to = json::entry_views(new.entries());
    let ghost at = action::path_view(path@);
    let ghost pool = path_segment_pool@;
    let count: usize = old.len();
    proof {
        assert forall|i: int| 0 <= i < from.len() implies json_cbor::first_unsafe(
            (#[trigger] from[i]).1,
        ) is None by {
            json_cbor::lemma_safe_entry(from, from.len(), i);
        }
        assert forall|i: int| 0 <= i < to.len() implies json_cbor::first_unsafe(
            (#[trigger] to[i]).1,
        ) is None by {
            json_cbor::lemma_safe_entry(to, to.len(), i);
        }
    }
    let removed: Vec<String> = objects::sorted_removed_keys(old, new);
    let added: Vec<String> = objects::sorted_added_keys(old, new);
    proof {
        assert(string_map::sorted(from));
        assert(string_map::sorted(to));
        let keys = objects::key_views(added@);
        objects::lemma_selected(to, objects::occurring(from, false), to.len());
        assert forall|i: int| 0 <= i < added@.len() implies string_map::has_key(
            to,
            #[trigger] keys[i],
        ) by {
            assert(keys.contains(keys[i]));
        }
    }
    let added_by_digest = match objects::index_added_values_by_digest(added, new) {
        Ok(index) => index,
        Err(e) => return Err(e),
    };
    let extracted = match objects::extract_move_actions(
        removed,
        added_by_digest,
        old,
        new,
        path,
        path_segment_pool,
    ) {
        Ok(extracted) => extracted,
        Err(e) => return Err(e),
    };
    let ghost moved = objects::moves(from, to, at, pool, objects::removed_keys(from, to).len());
    let mut actions: Vec<Action> = extracted.actions;
    extend(&mut actions, objects::remove_actions(&extracted.removed, path));

    let unchanged_by_digest = match objects::index_unchanged_values_by_digest(old, new) {
        Ok(index) => index,
        Err(e) => return Err(e),
    };
    let (copy_actions, remaining_added) = match objects::extract_copy_actions(
        extracted.added,
        &unchanged_by_digest,
        new,
        path,
        path_segment_pool,
        Ghost(moved.added),
        Ghost(from),
    ) {
        Ok(extracted) => extracted,
        Err(e) => return Err(e),
    };
    extend(&mut actions, copy_actions);

    let ghost start = action::action_views(actions@);
    assert(start + entry_acts(from, to, at, pool, array_patches, 0) =~= start);
    let mut i: usize = 0;
    while i < count
        invariant
            i <= count == from.len(),
            from == json::entry_views(old.entries()),
            to == json::entry_views(new.entries()),
            objects::safe_entries(from),
            objects::safe_entries(to),
            at == action::path_view(path@),
            pool == path_segment_pool@,
            action::action_views(actions@) == start + entry_acts(
                from,
                to,
                at,
                pool,
                array_patches,
                i as nat,
            ),
            encoder::all_safe(action::action_views(actions@)),
        decreases count - i,
    {
        let key: &String = old.key_at(i);
        let value: &JsonValue = old.value_at(i);
        proof {
            assert(from[i as int] == (key@, value@));
            json::lemma_has_key(new.entries(), key@);
            json::lemma_entry_smaller(from, i as int);
        }
        if let Some(current) = new.get(key.as_str()) {
            proof {
                string_map::lemma_slot_range(to, key@);
                assert(to[string_map::slot(to, key@)].1 == current@);
            }
            let child = action::child_path(path, PathSegment::Key(key.clone()));
            let changes = match build_diff(
                value,
                current,
                child.as_slice(),
                path_segment_pool,
                array_patches,
            ) {
                Ok(plan) => plan,
                Err(e) => return Err(e),
            };
            extend(&mut actions, changes.actions);
            proof {
                assert(action::action_views(actions@) =~= start + entry_acts(
                    from,
                    to,
                    at,
                    pool,
                    array_patches,
                    i as nat + 1,
                ));
            }
        }
        i = i + 1;
    }
    extend(&mut actions, objects::add_actions(&remaining_added, new, path));
    cost::safe_plan(actions, path_segment_pool)
}

/// Plans to change the items of an array in place, and its length.
fn legacy_array_plan(
    old: &Vec<JsonValue>,
    new: &Vec<JsonValue>,
    path: &[PathSegment],
    path_segment_pool: &ProducerPathSegmentPool,
    array_patches: bool,
) -> (result: Result<DiffPlan, JsyncError>)
    requires
        arrays::all_safe(json::json_views(old@)),
        arrays::all_safe(json::json_views(new@)),
    ensures
        result matches Ok(plan) && {
            &&& plan.well_formed(path_segment_pool@)
            &&& plan.acts() == itemwise_acts(
                json::json_views(old@),
                json::json_views(new@),
                action::path_view(path@),
                path_segment_pool@,
                array_patches,
            )
        },
    decreases Json::Array(json::json_views(old@)), 0nat,
{
    let ghost from = json::json_views(old@);
    let ghost to = json::json_views(new@);
    let ghost at = action::path_view(path@);
    let ghost pool = path_segment_pool@;
    let common: usize = if old.len() < new.len() {
        old.len()
    } else {
        new.len()
    };
    let mut actions: Vec<Action> = Vec::new();
    let mut i: usize = 0;
    assert(action::action_views(actions@) =~= Seq::empty());
    while i < common
        invariant
            i <= common,
            common <= old@.len(),
            common <= new@.len(),
            from == json::json_views(old@),
            to == json::json_views(new@),
            arrays::all_safe(from),
            arrays::all_safe(to),
            at == action::path_view(path@),
            pool == path_segment_pool@,
            action::action_views(actions@) == item_acts(
                from,
                to,
                at,
                pool,
                array_patches,
                i as nat,
            ),
            encoder::all_safe(action::action_views(actions@)),
        decreases common - i,
    {
        proof {
            assert(from[i as int] == old@[i as int]@);
            assert(to[i as int] == new@[i as int]@);
            json::lemma_item_smaller(from, i as int);
        }
        let child = action::child_path(path, PathSegment::Index(i));
        let changes = match build_diff(
            &old[i],
            &new[i],
            child.as_slice(),
            path_segment_pool,
            array_patches,
        ) {
            Ok(plan) => plan,
            Err(e) => return Err(e),
        };
        extend(&mut actions, changes.actions);
        i = i + 1;
    }
    assert(common == shorter(from.len(), to.len()));
    extend(&mut actions, shrink_actions(old.len(), common, path));
    extend(&mut actions, grow_actions(new, common, path));
    cost::safe_plan(actions, path_segment_pool)
}

/// The actions that remove the items of an array from its end on, until `left` are left.
fn shrink_actions(length: usize, left: usize, path: &[PathSegment]) -> (actions: Vec<Action>)
    requires
        left <= length,
    ensures
        action::action_views(actions@) == shrink_acts(
            length as nat,
            left as nat,
            action::path_view(path@),
        ),
        encoder::all_safe(action::action_views(actions@)),
{
    let ghost at = action::path_view(path@);
    let mut actions: Vec<Action> = Vec::new();
    let mut index: usize = length;
    while index > left
        invariant
            left <= index <= length,
            at == action::path_view(path@),
            actions@.len() == length - index,
            forall|j: int|
                0 <= j < length - index ==> (#[trigger] actions@[j])@ == (Act::Remove {
                    path: element(at, length - 1 - j),
                }),
        decreases index,
    {
        index = index - 1;
        actions.push(
            Action::Remove { path: action::child_path(path, PathSegment::Index(index)) },
        );
    }
    assert(action::action_views(actions@) =~= shrink_acts(length as nat, left as nat, at));
    actions
}

/// The actions that add the items of an array that stand behind the first `length`.
fn grow_actions(new: &Vec<JsonValue>, length: usize, path: &[PathSegment]) -> (actions: Vec<
    Action,
>)
    requires
        length <= new@.len(),
        arrays::all_safe(json::json_views(new@)),
    ensures
        action::action_views(actions@) == grow_acts(
            json::json_views(new@),
            length as nat,
            action::path_view(path@),
        ),
        encoder::all_safe(action::action_views(actions@)),
{
    let ghost to = json::json_views(new@);
    let ghost at = action::path_view(path@);
    let mut actions: Vec<Action> = Vec::new();
    let mut index: usize = length;
    while index < new.len()
        invariant
            length <= index <= new@.len(),
            to == json::json_views(new@),
            arrays::all_safe(to),
            at == action::path_view(path@),
            actions@.len() == index - length,
            forall|j: int|
                0 <= j < index - length ==> {
                    &&& (#[trigger] actions@[j])@ == (Act::Add {
                        path: element(at, length + j),
                        value: to[length + j],
                    })
                    &&& encoder::first_unsafe_number(actions@[j]@) is None
                },
        decreases new@.len() - index,
    {
        assert(to[index as int] == new@[index as int]@);
        actions.push(
            Action::Add {
                path: action::child_path(path, PathSegment::Index(index)),
                value: new[index].clone(),
            },
        );
        index = index + 1;
    }
    assert(action::action_views(actions@) =~= grow_acts(to, length as nat, at));
    actions
}

/// Plans to change an array.
fn diff_arrays(
    old: &Vec<JsonValue>,
    new: &Vec<JsonValue>,
    path: &[PathSegment],
    path_segment_pool: &ProducerPathSegmentPool,
    array_patches: bool,
) -> (result: Result<DiffPlan, JsyncError>)
    requires
        json_cbor::first_unsafe(Json::Array(json::json_views(old@))) is None,
        json_cbor::first_unsafe(Json::Array(json::json_views(new@))) is None,
    ensures
        result matches Ok(plan) && {
            &&& plan.well_formed(path_segment_pool@)
            &&& plan.acts() == array_acts(
                json::json_views(old@),
                json::json_views(new@),
                action::path_view(path@),
                path_segment_pool@,
                array_patches,
            )
        },
    decreases Json::Array(json::json_views(old@)), 1nat,
{
    let ghost from = json::json_views(old@);
    let ghost to = json::json_views(new@);
    let ghost at = action::path_view(path@);
    let ghost pool = path_segment_pool@;
    proof {
        assert forall|i: int| 0 <= i < from.len() implies json_cbor::first_unsafe(
            #[trigger] from[i],
        ) is None by {
            json_cbor::lemma_safe_item(from, from.len(), i);
        }
        assert forall|i: int| 0 <= i < to.len() implies json_cbor::first_unsafe(
            #[trigger] to[i],
        ) is None by {
            json_cbor::lemma_safe_item(to, to.len(), i);
        }
    }
    let best = match legacy_array_plan(old, new, path, path_segment_pool, array_patches) {
        Ok(plan) => plan,
        Err(e) => return Err(e),
    };
    if !array_patches {
        return Ok(best);
    }
    let single_patch = match arrays::single_array_patch_plan(
        old.as_slice(),
        new.as_slice(),
        path,
        path_segment_pool,
    ) {
        Ok(found) => found,
        Err(e) => return Err(e),
    };
    let best = cost::choose_considered(
        best,
        single_patch,
        Ghost(arrays::single_patch_acts(from, to, at)),
        Ghost(pool),
    );
    let myers_patch = match arrays::myers_array_patch_plan(
        old.as_slice(),
        new.as_slice(),
        path,
        path_segment_pool,
    ) {
        Ok(found) => found,
        Err(e) => return Err(e),
    };
    Ok(
        cost::choose_considered(
            best,
            myers_patch,
            Ghost(arrays::script_patch_acts(from, to, at)),
            Ghost(pool),
        ),
    )
}

} // verus!
