//! Application of actions to a document.

use vstd::prelude::*;

use crate::error;
use crate::error::{ErrorModel, JsyncError, JsyncErrorKind};
use crate::json;
use crate::json::{Json, JsonValue};
use crate::message::action;
use crate::message::action::{
    Act, Action, ArrayPatchEdit, Edit, PathSegment, Segment, StringPatchEdit,
};
use crate::patch;
use crate::patch::{PatchTexts, PatchWording};
use crate::string_map;
use crate::text;

verus! {

/// What a path segment is followed for. It decides which segments are accepted and how a failure
/// is worded.
#[derive(Debug, Clone, Copy)]
pub enum Step {
    /// On the way to the parent of a value.
    Parent,
    /// On the way to a value.
    Target,
    /// To insert a value.
    Add,
    /// To remove a value.
    Remove,
    /// To replace a value.
    Replace,
    /// To take a value out and put it elsewhere.
    Move,
}

/// How the failures of a step are worded.
pub struct StepTexts {
    /// The object has no such key.
    pub missing: &'static str,
    /// The array has no such index.
    pub outside: &'static str,
    /// The value is an array, and the segment a key.
    pub array_key: &'static str,
    /// The value is an object, and the segment an index.
    pub object_index: &'static str,
    /// The value is neither.
    pub scalar: &'static str,
    /// Where a failure occurred.
    pub context: &'static str,
    /// Where a failure occurred when the segment did not fit the value.
    pub mismatch_context: &'static str,
}

/// How the failures of a step are worded.
pub struct Wording {
    /// The object has no such key.
    pub missing: Seq<char>,
    /// The array has no such index.
    pub outside: Seq<char>,
    /// The value is an array, and the segment a key.
    pub array_key: Seq<char>,
    /// The value is an object, and the segment an index.
    pub object_index: Seq<char>,
    /// The value is neither.
    pub scalar: Seq<char>,
    /// Where a failure occurred.
    pub context: Seq<char>,
    /// Where a failure occurred when the segment did not fit the value.
    pub mismatch_context: Seq<char>,
}

impl View for StepTexts {
    type V = Wording;

    open spec fn view(&self) -> Wording {
        Wording {
            missing: self.missing@,
            outside: self.outside@,
            array_key: self.array_key@,
            object_index: self.object_index@,
            scalar: self.scalar@,
            context: self.context@,
            mismatch_context: self.mismatch_context@,
        }
    }
}

/// How the failures of a step are worded.
pub open spec fn wording(step: Step) -> Wording {
    match step {
        Step::Parent => Wording {
            missing: "The path object key does not exist."@,
            outside: "The path index is outside the array."@,
            array_key: "An array intermediate segment must be an index."@,
            object_index: "An object intermediate segment must be a string."@,
            scalar: "The path traversed a scalar."@,
            context: "while resolving a path parent"@,
            mismatch_context: "while resolving an intermediate path segment"@,
        },
        Step::Target => Wording {
            missing: "The path object key does not exist."@,
            outside: "The path index is outside the array."@,
            array_key: "An array path segment must be an index."@,
            object_index: "An object path segment must be a string."@,
            scalar: "The path traversed a scalar."@,
            context: "while resolving a path target"@,
            mismatch_context: "while resolving a path target"@,
        },
        Step::Add => Wording {
            missing: ""@,
            outside: "The ADD index is greater than the array length."@,
            array_key: "An array final segment must be a non-negative integer or '-'."@,
            object_index: "An object final segment must be a string."@,
            scalar: "The ADD path parent is a scalar instead of an object or array."@,
            context: "while applying the final ADD path segment"@,
            mismatch_context: "while applying the final ADD path segment"@,
        },
        Step::Remove => Wording {
            missing: "The REMOVE object key does not exist."@,
            outside: "The REMOVE index is outside the array."@,
            array_key: "A REMOVE array final segment must be a non-negative integer; '-' is only valid for ADD."@,
            object_index: "A REMOVE object final segment must be a string."@,
            scalar: "The REMOVE path parent is a scalar instead of an object or array."@,
            context: "while applying the final REMOVE path segment"@,
            mismatch_context: "while applying the final REMOVE path segment"@,
        },
        Step::Replace => Wording {
            missing: "The REPLACE object key does not exist."@,
            outside: "The REPLACE index is outside the array."@,
            array_key: "A REPLACE array final segment must be a non-negative integer; '-' is only valid for ADD."@,
            object_index: "A REPLACE object final segment must be a string."@,
            scalar: "The REPLACE path parent is a scalar instead of an object or array."@,
            context: "while applying the final REPLACE path segment"@,
            mismatch_context: "while applying the final REPLACE path segment"@,
        },
        Step::Move => Wording {
            missing: "The MOVE object key does not exist."@,
            outside: "The MOVE index is outside the array."@,
            array_key: "A MOVE array from segment must be a non-negative integer."@,
            object_index: "A MOVE object from segment must be a string."@,
            scalar: "The MOVE from path parent is a scalar instead of an object or array."@,
            context: "while applying the final MOVE from path segment"@,
            mismatch_context: "while applying the final MOVE from path segment"@,
        },
    }
}

/// Returns how the failures of a step are worded.
fn step_texts(step: Step) -> (texts: StepTexts)
    ensures
        texts@ == wording(step),
{
    match step {
        Step::Parent => StepTexts {
            missing: "The path object key does not exist.",
            outside: "The path index is outside the array.",
            array_key: "An array intermediate segment must be an index.",
            object_index: "An object intermediate segment must be a string.",
            scalar: "The path traversed a scalar.",
            context: "while resolving a path parent",
            mismatch_context: "while resolving an intermediate path segment",
        },
        Step::Target => StepTexts {
            missing: "The path object key does not exist.",
            outside: "The path index is outside the array.",
            array_key: "An array path segment must be an index.",
            object_index: "An object path segment must be a string.",
            scalar: "The path traversed a scalar.",
            context: "while resolving a path target",
            mismatch_context: "while resolving a path target",
        },
        Step::Add => StepTexts {
            missing: "",
            outside: "The ADD index is greater than the array length.",
            array_key: "An array final segment must be a non-negative integer or '-'.",
            object_index: "An object final segment must be a string.",
            scalar: "The ADD path parent is a scalar instead of an object or array.",
            context: "while applying the final ADD path segment",
            mismatch_context: "while applying the final ADD path segment",
        },
        Step::Remove => StepTexts {
            missing: "The REMOVE object key does not exist.",
            outside: "The REMOVE index is outside the array.",
            array_key: "A REMOVE array final segment must be a non-negative integer; '-' is only valid for ADD.",
            object_index: "A REMOVE object final segment must be a string.",
            scalar: "The REMOVE path parent is a scalar instead of an object or array.",
            context: "while applying the final REMOVE path segment",
            mismatch_context: "while applying the final REMOVE path segment",
        },
        Step::Replace => StepTexts {
            missing: "The REPLACE object key does not exist.",
            outside: "The REPLACE index is outside the array.",
            array_key: "A REPLACE array final segment must be a non-negative integer; '-' is only valid for ADD.",
            object_index: "A REPLACE object final segment must be a string.",
            scalar: "The REPLACE path parent is a scalar instead of an object or array.",
            context: "while applying the final REPLACE path segment",
            mismatch_context: "while applying the final REPLACE path segment",
        },
        Step::Move => StepTexts {
            missing: "The MOVE object key does not exist.",
            outside: "The MOVE index is outside the array.",
            array_key: "A MOVE array from segment must be a non-negative integer.",
            object_index: "A MOVE object from segment must be a string.",
            scalar: "The MOVE from path parent is a scalar instead of an object or array.",
            context: "while applying the final MOVE from path segment",
            mismatch_context: "while applying the final MOVE from path segment",
        },
    }
}

/// The error of following a segment from a value, if there is one; `at` is the position of the
/// segment in its path.
pub open spec fn step_error(value: Json, segment: Segment, at: int, step: Step) -> Option<
    ErrorModel,
> {
    let words = wording(step);
    match (value, segment) {
        (Json::Object(entries), Segment::Key(key)) => if step is Add || string_map::has_key(
            entries,
            key,
        ) {
            None
        } else {
            Some(
                error::failure(JsyncErrorKind::PathParentMissing, words.missing).with_metadata(
                    "key"@,
                    key,
                ).with_metadata("segment_index"@, text::decimal(at)).with_context(words.context),
            )
        },
        (Json::Array(items), Segment::Index(index)) => if index < items.len() || (step is Add
            && index == items.len()) {
            None
        } else {
            Some(
                error::failure(JsyncErrorKind::ArrayIndexOutOfBounds, words.outside).with_metadata(
                    "index"@,
                    text::decimal(index),
                ).with_metadata("length"@, text::decimal(items.len() as int)).with_metadata(
                    "segment_index"@,
                    text::decimal(at),
                ).with_context(words.context),
            )
        },
        (Json::Array(_), Segment::Key(key)) => if step is Add && key == "-"@ {
            None
        } else {
            Some(
                error::failure(JsyncErrorKind::InvalidPath, words.array_key).with_metadata(
                    "segment"@,
                    key,
                ).with_metadata("segment_index"@, text::decimal(at)).with_context(
                    words.mismatch_context,
                ),
            )
        },
        (Json::Object(_), Segment::Index(index)) => Some(
            error::failure(JsyncErrorKind::InvalidPath, words.object_index).with_metadata(
                "index"@,
                text::decimal(index),
            ).with_metadata("segment_index"@, text::decimal(at)).with_context(
                words.mismatch_context,
            ),
        ),
        _ => Some(
            error::failure(JsyncErrorKind::PathParentNotContainer, words.scalar).with_metadata(
                "segment_index"@,
                text::decimal(at),
            ).with_context(words.context),
        ),
    }
}

/// Finds the error of following a segment from a value.
fn find_step_error(value: &JsonValue, segment: &PathSegment, at: usize, step: Step) -> (found:
    Option<JsyncError>)
    ensures
        match found {
            Some(e) => step_error(value@, segment@, at as int, step) == Some(e@),
            None => step_error(value@, segment@, at as int, step) is None,
        },
{
    broadcast use {json::lemma_array_view, json::lemma_object_view};

    let words = step_texts(step);
    match (value, segment) {
        (JsonValue::Object(object), PathSegment::Key(key)) => {
            proof {
                json::lemma_has_key(object.entries(), key@);
            }
            if matches!(step, Step::Add) || object.contains_key(key.as_str()) {
                None
            } else {
                Some(
                    JsyncError::new(
                        JsyncErrorKind::PathParentMissing,
                        words.missing,
                    ).with_metadata("key", key.as_str()).with_metadata(
                        "segment_index",
                        text::count_text(at).as_str(),
                    ).with_context(words.context),
                )
            }
        },
        (JsonValue::Array(array), PathSegment::Index(index)) => {
            assert(json::json_views(array@).len() == array@.len());
            if *index < array.len() || (matches!(step, Step::Add) && *index == array.len()) {
                None
            } else {
                Some(
                    JsyncError::new(
                        JsyncErrorKind::ArrayIndexOutOfBounds,
                        words.outside,
                    ).with_metadata("index", text::count_text(*index).as_str()).with_metadata(
                        "length",
                        text::count_text(array.len()).as_str(),
                    ).with_metadata("segment_index", text::count_text(at).as_str()).with_context(
                        words.context,
                    ),
                )
            }
        },
        (JsonValue::Array(_), PathSegment::Key(key)) => {
            if matches!(step, Step::Add) && text::same_text(key.as_str(), "-") {
                None
            } else {
                Some(
                    JsyncError::new(JsyncErrorKind::InvalidPath, words.array_key).with_metadata(
                        "segment",
                        key.as_str(),
                    ).with_metadata("segment_index", text::count_text(at).as_str()).with_context(
                        words.mismatch_context,
                    ),
                )
            }
        },
        (JsonValue::Object(_), PathSegment::Index(index)) => Some(
            JsyncError::new(JsyncErrorKind::InvalidPath, words.object_index).with_metadata(
                "index",
                text::count_text(*index).as_str(),
            ).with_metadata("segment_index", text::count_text(at).as_str()).with_context(
                words.mismatch_context,
            ),
        ),
        _ => Some(
            JsyncError::new(JsyncErrorKind::PathParentNotContainer, words.scalar).with_metadata(
                "segment_index",
                text::count_text(at).as_str(),
            ).with_context(words.context),
        ),
    }
}

/// The part of a value that a segment selects.
pub open spec fn child(value: Json, segment: Segment) -> Json {
    match (value, segment) {
        (Json::Object(entries), Segment::Key(key)) => string_map::lookup(entries, key),
        (Json::Array(items), Segment::Index(index)) => items[index],
        _ => Json::Null,
    }
}

/// A value with the part that a segment selects put in the place of the old one.
pub open spec fn with_child(value: Json, segment: Segment, part: Json) -> Json {
    match (value, segment) {
        (Json::Object(entries), Segment::Key(key)) => Json::Object(
            string_map::with_entry(entries, key, part),
        ),
        (Json::Array(items), Segment::Index(index)) => Json::Array(items.update(index, part)),
        _ => value,
    }
}

/// The value to which a path leads from its segment at `at` on.
pub open spec fn resolve(value: Json, path: Seq<Segment>, at: int, step: Step) -> Result<
    Json,
    ErrorModel,
>
    decreases path.len() - at,
{
    if at >= path.len() {
        Ok(value)
    } else {
        match step_error(value, path[at], at, step) {
            Some(e) => Err(e),
            None => resolve(child(value, path[at]), path, at + 1, step),
        }
    }
}

/// A value with `part` put where a path leads from its segment at `at` on.
pub open spec fn put(value: Json, path: Seq<Segment>, at: int, part: Json) -> Json
    decreases path.len() - at,
{
    if at >= path.len() {
        part
    } else {
        with_child(value, path[at], put(child(value, path[at]), path, at + 1, part))
    }
}

/// Follows a path from its segment at `at` on.
fn follow<'a>(
    current: &'a mut JsonValue,
    path: &[PathSegment],
    at: usize,
    step: Step,
) -> (result: Result<&'a mut JsonValue, JsyncError>)
    requires
        at <= path@.len(),
        step is Parent || step is Target,
    ensures
        match result {
            Ok(found) => {
                &&& resolve(
                    old(current)@,
                    action::path_view(path@),
                    at as int,
                    step,
                ) == Ok::<Json, ErrorModel>((*found)@)
                &&& final(current)@ == put(
                    old(current)@,
                    action::path_view(path@),
                    at as int,
                    (*final(found))@,
                )
            },
            Err(e) => {
                &&& resolve(
                    old(current)@,
                    action::path_view(path@),
                    at as int,
                    step,
                ) == Err::<Json, ErrorModel>(e@)
                &&& final(current)@ == old(current)@
            },
        },
    decreases path@.len() - at,
{
    broadcast use {json::lemma_array_view, json::lemma_object_view};

    if at == path.len() {
        return Ok(current);
    }
    assert(action::path_view(path@)[at as int] == path@[at as int]@);
    if let Some(e) = find_step_error(&*current, &path[at], at, step) {
        return Err(e);
    }
    match (current, &path[at]) {
        (JsonValue::Object(object), PathSegment::Key(key)) => {
            proof {
                json::lemma_has_key(object.entries(), key@);
                assert forall|part: JsonValue| #[trigger]
                    json::entry_views(
                        string_map::with_entry(object.entries(), key@, part),
                    ) == string_map::with_entry(
                    json::entry_views(object.entries()),
                    key@,
                    part@,
                ) by {
                    json::lemma_entry_put(object.entries(), key@, part);
                }
                string_map::lemma_same_entry(json::entry_views(object.entries()), key@);
            }
            let part = object.get_mut(key.as_str()).unwrap();
            follow(part, path, at + 1, step)
        },
        (JsonValue::Array(array), PathSegment::Index(index)) => {
            assert(json::json_views(array@).len() == array@.len());
            assert forall|part: JsonValue| #[trigger]
                json::json_views(array@.update(*index as int, part)) == json::json_views(
                array@,
            ).update(*index as int, part@) by {
                assert(json::json_views(array@.update(*index as int, part)) =~= json::json_views(
                    array@,
                ).update(*index as int, part@));
            }
            assert(json::json_views(array@).update(
                *index as int,
                json::json_views(array@)[*index as int],
            ) =~= json::json_views(array@));
            follow(&mut array[*index], path, at + 1, step)
        },
        (other, _) => Ok(other),
    }
}

/// Putting what is found at a path back there changes nothing.
pub proof fn lemma_put_same(value: Json, path: Seq<Segment>, at: int, step: Step)
    requires
        0 <= at,
        step is Parent || step is Target,
        forall|i: int|
            0 <= i < path.len() ==> (#[trigger] path[i] matches Segment::Index(n) ==> n >= 0),
        resolve(value, path, at, step) is Ok,
    ensures
        put(value, path, at, resolve(value, path, at, step)->Ok_0) == value,
    decreases path.len() - at,
{
    if at < path.len() {
        let part = child(value, path[at]);
        lemma_put_same(part, path, at + 1, step);
        match (value, path[at]) {
            (Json::Object(entries), Segment::Key(key)) => {
                string_map::lemma_same_entry(entries, key);
            },
            (Json::Array(items), Segment::Index(index)) => {
                assert(items.update(index, items[index]) =~= items);
            },
            _ => {},
        }
    }
}

/// The parent of the value at a path, from which the last segment is to be followed.
pub open spec fn parent_at(root: Json, path: Seq<Segment>, step: Step, context: Seq<char>) -> Result<
    Json,
    ErrorModel,
> {
    match resolve(root, path.drop_last(), 0, Step::Parent) {
        Err(e) => Err(e.with_context(context)),
        Ok(parent) => match step_error(parent, path.last(), path.len() - 1, step) {
            Some(e) => Err(e),
            None => Ok(parent),
        },
    }
}

/// Resolves an existing object or array container for an action parent path.
fn resolve_container<'a>(
    root: &'a mut JsonValue,
    path: &[PathSegment],
    step: Step,
    context: &str,
) -> (result: Result<&'a mut JsonValue, JsyncError>)
    requires
        path@.len() > 0,
    ensures
        ({
            let segments = action::path_view(path@);
            let parent = parent_at(old(root)@, segments, step, context@);
            match result {
                Ok(found) => {
                    &&& parent == Ok::<Json, ErrorModel>((*found)@)
                    &&& final(root)@ == put(
                        old(root)@,
                        segments.drop_last(),
                        0,
                        (*final(found))@,
                    )
                },
                Err(e) => {
                    &&& parent == Err::<Json, ErrorModel>(e@)
                    &&& final(root)@ == old(root)@
                },
            }
        }),
{
    let last: usize = path.len() - 1;
    let prefix: &[PathSegment] = vstd::slice::slice_subrange(path, 0, last);
    let ghost segments = action::path_view(path@);
    assert(action::path_view(prefix@) =~= segments.drop_last());
    assert(segments.last() == path@[last as int]@);
    proof {
        if resolve(root@, segments.drop_last(), 0, Step::Parent) is Ok {
            lemma_put_same(root@, segments.drop_last(), 0, Step::Parent);
        }
    }
    match follow(root, prefix, 0, Step::Parent) {
        Ok(parent) => match find_step_error(&*parent, &path[last], last, step) {
            Some(e) => Err(e),
            None => Ok(parent),
        },
        Err(e) => Err(e.with_context(context)),
    }
}

/// Resolves an existing value for an action path.
fn resolve_value<'a>(root: &'a mut JsonValue, path: &[PathSegment]) -> (result: Result<
    &'a mut JsonValue,
    JsyncError,
>)
    ensures
        ({
            let segments = action::path_view(path@);
            let target = resolve(old(root)@, segments, 0, Step::Target);
            match result {
                Ok(found) => {
                    &&& target == Ok::<Json, ErrorModel>((*found)@)
                    &&& final(root)@ == put(old(root)@, segments, 0, (*final(found))@)
                    &&& put(old(root)@, segments, 0, (*found)@) == old(root)@
                },
                Err(e) => {
                    &&& target == Err::<Json, ErrorModel>(e@)
                    &&& final(root)@ == old(root)@
                },
            }
        }),
{
    proof {
        let segments = action::path_view(path@);
        if resolve(root@, segments, 0, Step::Target) is Ok {
            lemma_put_same(root@, segments, 0, Step::Target);
        }
    }
    follow(root, path, 0, Step::Target)
}

/// A container with a value inserted where a segment says.
pub open spec fn add_to(parent: Json, segment: Segment, value: Json) -> Json {
    match (parent, segment) {
        (Json::Object(entries), Segment::Key(key)) => Json::Object(
            string_map::with_entry(entries, key, value),
        ),
        (Json::Array(items), Segment::Index(index)) => Json::Array(items.insert(index, value)),
        (Json::Array(items), Segment::Key(_)) => Json::Array(items.push(value)),
        _ => parent,
    }
}

/// A container without the part that a segment selects.
pub open spec fn remove_from(parent: Json, segment: Segment) -> Json {
    match (parent, segment) {
        (Json::Object(entries), Segment::Key(key)) => Json::Object(
            string_map::without_key(entries, key),
        ),
        (Json::Array(items), Segment::Index(index)) => Json::Array(items.remove(index)),
        _ => parent,
    }
}

/// The document after an ADD.
pub open spec fn add_at(root: Json, path: Seq<Segment>, value: Json) -> Result<Json, ErrorModel> {
    if path.len() == 0 {
        Ok(value)
    } else {
        match parent_at(root, path, Step::Add, "while resolving an ADD path parent"@) {
            Err(e) => Err(e),
            Ok(parent) => Ok(put(root, path.drop_last(), 0, add_to(parent, path.last(), value))),
        }
    }
}

/// Applies an ADD action to an object, array, or root document.
pub fn apply_add(root: &mut JsonValue, path: &[PathSegment], value: JsonValue) -> (result: Result<
    (),
    JsyncError,
>)
    ensures
        match result {
            Ok(_) => add_at(old(root)@, action::path_view(path@), value@) == Ok::<
                Json,
                ErrorModel,
            >(final(root)@),
            Err(e) => {
                &&& add_at(old(root)@, action::path_view(path@), value@) == Err::<
                    Json,
                    ErrorModel,
                >(e@)
                &&& final(root)@ == old(root)@
            },
        },
{
    broadcast use {json::lemma_array_view, json::lemma_object_view};

    if path.len() == 0 {
        *root = value;
        return Ok(());
    }
    let last: usize = path.len() - 1;
    assert(action::path_view(path@).last() == path@[last as int]@);
    match resolve_container(root, path, Step::Add, "while resolving an ADD path parent") {
        Ok(parent) => {
            match (parent, &path[last]) {
                (JsonValue::Object(object), PathSegment::Key(key)) => {
                    proof {
                        json::lemma_entry_put(object.entries(), key@, value);
                    }
                    object.insert(key.clone(), value);
                },
                (JsonValue::Array(array), PathSegment::Index(index)) => {
                    let ghost before = json::json_views(array@);
                    assert(before.len() == array@.len());
                    array.insert(*index, value);
                    assert(json::json_views(array@) =~= before.insert(*index as int, value@));
                },
                (JsonValue::Array(array), PathSegment::Key(_)) => {
                    let ghost before = json::json_views(array@);
                    array.push(value);
                    assert(json::json_views(array@) =~= before.push(value@));
                },
                _ => {},
            }
            Ok(())
        },
        Err(e) => Err(e),
    }
}

/// The document after a REMOVE.
pub open spec fn remove_at(root: Json, path: Seq<Segment>) -> Result<Json, ErrorModel> {
    if path.len() == 0 {
        Err(
            error::failure(
                JsyncErrorKind::InvalidPath,
                "The REMOVE path cannot target the root document."@,
            ).with_context("while applying the final REMOVE path segment"@),
        )
    } else {
        match parent_at(root, path, Step::Remove, "while resolving a REMOVE path parent"@) {
            Err(e) => Err(e),
            Ok(parent) => Ok(put(root, path.drop_last(), 0, remove_from(parent, path.last()))),
        }
    }
}

/// Takes the part that a segment selects out of a container.
fn take_child(parent: &mut JsonValue, segment: &PathSegment, at: usize, step: Step) -> (part:
    JsonValue)
    requires
        step is Remove || step is Move,
        step_error(old(parent)@, segment@, at as int, step) is None,
    ensures
        part@ == child(old(parent)@, segment@),
        final(parent)@ == remove_from(old(parent)@, segment@),
{
    broadcast use {json::lemma_array_view, json::lemma_object_view};

    match (parent, segment) {
        (JsonValue::Object(object), PathSegment::Key(key)) => {
            proof {
                json::lemma_has_key(object.entries(), key@);
                json::lemma_entry_removed(object.entries(), key@);
            }
            object.remove(key.as_str()).unwrap()
        },
        (JsonValue::Array(array), PathSegment::Index(index)) => {
            let ghost before = json::json_views(array@);
            assert(before.len() == array@.len());
            let part = array.remove(*index);
            assert(json::json_views(array@) =~= before.remove(*index as int));
            part
        },
        _ => JsonValue::Null,
    }
}

/// Removes an existing value from an object, array, or root path.
pub fn apply_remove(root: &mut JsonValue, path: &[PathSegment]) -> (result: Result<(), JsyncError>)
    ensures
        match result {
            Ok(_) => remove_at(old(root)@, action::path_view(path@)) == Ok::<Json, ErrorModel>(
                final(root)@,
            ),
            Err(e) => {
                &&& remove_at(old(root)@, action::path_view(path@)) == Err::<Json, ErrorModel>(e@)
                &&& final(root)@ == old(root)@
            },
        },
{
    if path.len() == 0 {
        return Err(
            JsyncError::new(
                JsyncErrorKind::InvalidPath,
                "The REMOVE path cannot target the root document.",
            ).with_context("while applying the final REMOVE path segment"),
        );
    }
    let last: usize = path.len() - 1;
    assert(action::path_view(path@).last() == path@[last as int]@);
    match resolve_container(root, path, Step::Remove, "while resolving a REMOVE path parent") {
        Ok(parent) => {
            let _removed = take_child(parent, &path[last], last, Step::Remove);
            Ok(())
        },
        Err(e) => Err(e),
    }
}

/// The document after a REPLACE.
pub open spec fn replace_at(root: Json, path: Seq<Segment>, value: Json) -> Result<
    Json,
    ErrorModel,
> {
    if path.len() == 0 {
        Ok(value)
    } else {
        match parent_at(root, path, Step::Replace, "while resolving a REPLACE path parent"@) {
            Err(e) => Err(e),
            Ok(parent) => Ok(
                put(root, path.drop_last(), 0, with_child(parent, path.last(), value)),
            ),
        }
    }
}

/// Replaces an existing value at an object, array, or root path.
pub fn apply_replace(
    root: &mut JsonValue,
    path: &[PathSegment],
    value: JsonValue,
) -> (result: Result<(), JsyncError>)
    ensures
        match result {
            Ok(_) => replace_at(old(root)@, action::path_view(path@), value@) == Ok::<
                Json,
                ErrorModel,
            >(final(root)@),
            Err(e) => {
                &&& replace_at(old(root)@, action::path_view(path@), value@) == Err::<
                    Json,
                    ErrorModel,
                >(e@)
                &&& final(root)@ == old(root)@
            },
        },
{
    broadcast use {json::lemma_array_view, json::lemma_object_view};

    if path.len() == 0 {
        *root = value;
        return Ok(());
    }
    let last: usize = path.len() - 1;
    assert(action::path_view(path@).last() == path@[last as int]@);
    match resolve_container(root, path, Step::Replace, "while resolving a REPLACE path parent") {
        Ok(parent) => {
            match (parent, &path[last]) {
                (JsonValue::Object(object), PathSegment::Key(key)) => {
                    proof {
                        json::lemma_entry_put(object.entries(), key@, value);
                    }
                    object.insert(key.clone(), value);
                },
                (JsonValue::Array(array), PathSegment::Index(index)) => {
                    let ghost before = json::json_views(array@);
                    assert(before.len() == array@.len());
                    array.set(*index, value);
                    assert(json::json_views(array@) =~= before.update(*index as int, value@));
                },
                _ => {},
            }
            Ok(())
        },
        Err(e) => Err(e),
    }
}

/// The document after an APPEND.
pub open spec fn append_at(root: Json, path: Seq<Segment>, text: Seq<char>) -> Result<
    Json,
    ErrorModel,
> {
    match resolve(root, path, 0, Step::Target) {
        Err(e) => Err(e.with_context("while resolving an APPEND path target"@)),
        Ok(Json::String(target)) => Ok(put(root, path, 0, Json::String(target + text))),
        Ok(_) => Err(
            error::failure(
                JsyncErrorKind::ApplyFailed,
                "The APPEND path target is not a string."@,
            ).with_context("while applying the APPEND action"@),
        ),
    }
}

/// Appends text to an existing string at an object, array, or root path.
pub fn apply_string_append(root: &mut JsonValue, path: &[PathSegment], text: &str) -> (result: Result<
    (),
    JsyncError,
>)
    ensures
        match result {
            Ok(_) => append_at(old(root)@, action::path_view(path@), text@) == Ok::<
                Json,
                ErrorModel,
            >(final(root)@),
            Err(e) => {
                &&& append_at(old(root)@, action::path_view(path@), text@) == Err::<
                    Json,
                    ErrorModel,
                >(e@)
                &&& final(root)@ == old(root)@
            },
        },
{
    match resolve_value(root, path) {
        Ok(target) => {
            if let JsonValue::String(string) = target {
                string.append(text);
                Ok(())
            } else {
                Err(
                    JsyncError::new(
                        JsyncErrorKind::ApplyFailed,
                        "The APPEND path target is not a string.",
                    ).with_context("while applying the APPEND action"),
                )
            }
        },
        Err(e) => Err(e.with_context("while resolving an APPEND path target")),
    }
}

/// The document after a PREPEND.
pub open spec fn prepend_at(root: Json, path: Seq<Segment>, text: Seq<char>) -> Result<
    Json,
    ErrorModel,
> {
    match resolve(root, path, 0, Step::Target) {
        Err(e) => Err(e.with_context("while resolving a PREPEND path target"@)),
        Ok(Json::String(target)) => Ok(put(root, path, 0, Json::String(text + target))),
        Ok(_) => Err(
            error::failure(
                JsyncErrorKind::ApplyFailed,
                "The PREPEND path target is not a string."@,
            ).with_context("while applying the PREPEND action"@),
        ),
    }
}

/// Prepends text to an existing string at an object, array, or root path.
pub fn apply_string_prepend(root: &mut JsonValue, path: &[PathSegment], text: &str) -> (result: Result<
    (),
    JsyncError,
>)
    ensures
        match result {
            Ok(_) => prepend_at(old(root)@, action::path_view(path@), text@) == Ok::<
                Json,
                ErrorModel,
            >(final(root)@),
            Err(e) => {
                &&& prepend_at(old(root)@, action::path_view(path@), text@) == Err::<
                    Json,
                    ErrorModel,
                >(e@)
                &&& final(root)@ == old(root)@
            },
        },
{
    match resolve_value(root, path) {
        Ok(target) => {
            if let JsonValue::String(string) = target {
                let mut extended: String = text.to_string();
                extended.append(string.as_str());
                *string = extended;
                Ok(())
            } else {
                Err(
                    JsyncError::new(
                        JsyncErrorKind::ApplyFailed,
                        "The PREPEND path target is not a string.",
                    ).with_context("while applying the PREPEND action"),
                )
            }
        },
        Err(e) => Err(e.with_context("while resolving a PREPEND path target")),
    }
}

/// How the failures of a STRING_PATCH are worded.
pub open spec fn string_patch_wording() -> PatchWording {
    PatchWording {
        empty: "The STRING_PATCH edits cannot be empty."@,
        no_effect: "A STRING_PATCH edit must delete text or insert text."@,
        too_large: "A STRING_PATCH edit range is too large."@,
        outside: "A STRING_PATCH edit range is outside the target string."@,
        order: "STRING_PATCH edits must be in descending, non-overlapping order."@,
    }
}

fn string_patch_texts() -> (texts: PatchTexts)
    ensures
        texts@ == string_patch_wording(),
{
    PatchTexts {
        empty: "The STRING_PATCH edits cannot be empty.",
        no_effect: "A STRING_PATCH edit must delete text or insert text.",
        too_large: "A STRING_PATCH edit range is too large.",
        outside: "A STRING_PATCH edit range is outside the target string.",
        order: "STRING_PATCH edits must be in descending, non-overlapping order.",
    }
}

/// Checks that edits are in descending order, do not overlap and lie within a string of `length`
/// items.
pub fn validate_string_patch_edits(edits: &[StringPatchEdit], length: usize) -> (result: Result<
    (),
    JsyncError,
>)
    ensures
        ({
            let expected = patch::edits_error(
                action::string_edit_views(edits@),
                length as int,
                string_patch_wording(),
            );
            match result {
                Ok(_) => expected is None,
                Err(e) => expected == Some(e@),
            }
        }),
{
    let words = string_patch_texts();
    let ghost views = action::string_edit_views(edits@);
    assert(views.len() == edits@.len());
    if edits.len() == 0 {
        return Err(JsyncError::new(JsyncErrorKind::InvalidJsonValue, words.empty));
    }
    let mut previous_start: Option<usize> = None;
    let mut i: usize = 0;
    while i < edits.len()
        invariant
            i <= edits@.len(),
            edits@.len() > 0,
            views == action::string_edit_views(edits@),
            words@ == string_patch_wording(),
            patch::first_edit_error(views, i as nat, length as int, words@) is None,
            previous_start is Some == (i > 0),
            previous_start matches Some(start) ==> start == views[i - 1].start,
        decreases edits@.len() - i,
    {
        assert(views[i as int] == edits@[i as int]@);
        if let Some(e) = patch::find_edit_error(
            i,
            edits[i].start,
            edits[i].delete_count,
            !edits[i].text.as_str().is_empty(),
            previous_start,
            length,
            &words,
        ) {
            proof {
                patch::lemma_first_edit_error(views, i as nat + 1, length as int, words@);
            }
            return Err(e);
        }
        previous_start = Some(edits[i].start);
        i = i + 1;
    }
    Ok(())
}

/// How the failures of an ARRAY_PATCH are worded.
pub open spec fn array_patch_wording() -> PatchWording {
    PatchWording {
        empty: "The ARRAY_PATCH edits cannot be empty."@,
        no_effect: "An ARRAY_PATCH edit must delete or insert values."@,
        too_large: "An ARRAY_PATCH edit range is too large."@,
        outside: "An ARRAY_PATCH edit range is outside the target array."@,
        order: "ARRAY_PATCH edits must be in descending, non-overlapping order."@,
    }
}

fn array_patch_texts() -> (texts: PatchTexts)
    ensures
        texts@ == array_patch_wording(),
{
    PatchTexts {
        empty: "The ARRAY_PATCH edits cannot be empty.",
        no_effect: "An ARRAY_PATCH edit must delete or insert values.",
        too_large: "An ARRAY_PATCH edit range is too large.",
        outside: "An ARRAY_PATCH edit range is outside the target array.",
        order: "ARRAY_PATCH edits must be in descending, non-overlapping order.",
    }
}

/// Checks that edits are in descending order, do not overlap and lie within an array of `length`
/// items.
pub fn validate_array_patch_edits(edits: &[ArrayPatchEdit], length: usize) -> (result: Result<
    (),
    JsyncError,
>)
    ensures
        ({
            let expected = patch::edits_error(
                action::array_edit_views(edits@),
                length as int,
                array_patch_wording(),
            );
            match result {
                Ok(_) => expected is None,
                Err(e) => expected == Some(e@),
            }
        }),
{
    let words = array_patch_texts();
    let ghost views = action::array_edit_views(edits@);
    assert(views.len() == edits@.len());
    if edits.len() == 0 {
        return Err(JsyncError::new(JsyncErrorKind::InvalidJsonValue, words.empty));
    }
    let mut previous_start: Option<usize> = None;
    let mut i: usize = 0;
    while i < edits.len()
        invariant
            i <= edits@.len(),
            edits@.len() > 0,
            views == action::array_edit_views(edits@),
            words@ == array_patch_wording(),
            patch::first_edit_error(views, i as nat, length as int, words@) is None,
            previous_start is Some == (i > 0),
            previous_start matches Some(start) ==> start == views[i - 1].start,
        decreases edits@.len() - i,
    {
        assert(views[i as int] == edits@[i as int]@);
        if let Some(e) = patch::find_edit_error(
            i,
            edits[i].start,
            edits[i].delete_count,
            edits[i].values.len() > 0,
            previous_start,
            length,
            &words,
        ) {
            proof {
                patch::lemma_first_edit_error(views, i as nat + 1, length as int, words@);
            }
            return Err(e);
        }
        previous_start = Some(edits[i].start);
        i = i + 1;
    }
    Ok(())
}

/// The document after a STRING_PATCH.
pub open spec fn string_patch_at(root: Json, path: Seq<Segment>, edits: Seq<Edit<char>>) -> Result<
    Json,
    ErrorModel,
> {
    match resolve(root, path, 0, Step::Target) {
        Err(e) => Err(e.with_context("while resolving a STRING_PATCH path target"@)),
        Ok(Json::String(target)) => match patch::edits_error(
            edits,
            target.len() as int,
            string_patch_wording(),
        ) {
            Some(e) => Err(e),
            None => Ok(
                put(root, path, 0, Json::String(patch::patched(target, edits, edits.len()))),
            ),
        },
        Ok(_) => Err(
            error::failure(
                JsyncErrorKind::ApplyFailed,
                "The STRING_PATCH path target is not a string."@,
            ).with_context("while applying the STRING_PATCH action"@),
        ),
    }
}

/// Applies local edits to the text of a string.
fn patch_string(target: &mut String, edits: &[StringPatchEdit]) -> (result: Result<(), JsyncError>)
    ensures
        ({
            let views = action::string_edit_views(edits@);
            let error = patch::edits_error(
                views,
                old(target)@.len() as int,
                string_patch_wording(),
            );
            match result {
                Ok(_) => {
                    &&& error is None
                    &&& final(target)@ == patch::patched(old(target)@, views, views.len())
                },
                Err(e) => error == Some(e@) && final(target)@ == old(target)@,
            }
        }),
{
    let mut tokens: Vec<char> = text::string_tokens(target.as_str());
    let ghost views = action::string_edit_views(edits@);
    let ghost before = tokens@;
    if let Err(e) = validate_string_patch_edits(edits, tokens.len()) {
        return Err(e);
    }
    let mut i: usize = 0;
    while i < edits.len()
        invariant
            i <= edits@.len(),
            views == action::string_edit_views(edits@),
            patch::first_edit_error(
                views,
                views.len(),
                before.len() as int,
                string_patch_wording(),
            ) is None,
            tokens@ == patch::patched(before, views, i as nat),
        decreases edits@.len() - i,
    {
        assert(views[i as int] == edits@[i as int]@);
        proof {
            patch::lemma_patched(before, views, i as nat, string_patch_wording());
            patch::lemma_edit_fine(
                views,
                views.len(),
                before.len() as int,
                string_patch_wording(),
                i as int,
            );
        }
        let inserted: Vec<char> = text::string_tokens(edits[i].text.as_str());
        patch::replace_range(&mut tokens, edits[i].start, edits[i].delete_count, inserted);
        i = i + 1;
    }
    *target = text::tokens_to_string(tokens.as_slice());
    Ok(())
}

/// Applies local edits to an existing string at an object, array, or root path.
pub fn apply_string_patch(
    root: &mut JsonValue,
    path: &[PathSegment],
    edits: &[StringPatchEdit],
) -> (result: Result<(), JsyncError>)
    ensures
        ({
            let expected = string_patch_at(
                old(root)@,
                action::path_view(path@),
                action::string_edit_views(edits@),
            );
            match result {
                Ok(_) => expected == Ok::<Json, ErrorModel>(final(root)@),
                Err(e) => {
                    &&& expected == Err::<Json, ErrorModel>(e@)
                    &&& final(root)@ == old(root)@
                },
            }
        }),
{
    match resolve_value(root, path) {
        Ok(target) => {
            if let JsonValue::String(string) = target {
                patch_string(string, edits)
            } else {
                Err(
                    JsyncError::new(
                        JsyncErrorKind::ApplyFailed,
                        "The STRING_PATCH path target is not a string.",
                    ).with_context("while applying the STRING_PATCH action"),
                )
            }
        },
        Err(e) => Err(e.with_context("while resolving a STRING_PATCH path target")),
    }
}

/// The document after an ARRAY_PATCH.
pub open spec fn array_patch_at(root: Json, path: Seq<Segment>, edits: Seq<Edit<Json>>) -> Result<
    Json,
    ErrorModel,
> {
    match resolve(root, path, 0, Step::Target) {
        Err(e) => Err(e.with_context("while resolving an ARRAY_PATCH path target"@)),
        Ok(Json::Array(target)) => match patch::edits_error(
            edits,
            target.len() as int,
            array_patch_wording(),
        ) {
            Some(e) => Err(e),
            None => Ok(
                put(root, path, 0, Json::Array(patch::patched(target, edits, edits.len()))),
            ),
        },
        Ok(_) => Err(
            error::failure(
                JsyncErrorKind::ApplyFailed,
                "The ARRAY_PATCH path target is not an array."@,
            ).with_context("while applying the ARRAY_PATCH action"@),
        ),
    }
}

/// Applies local edits to the items of an array.
fn patch_array(target: &mut Vec<JsonValue>, edits: Vec<ArrayPatchEdit>) -> (result: Result<
    (),
    JsyncError,
>)
    ensures
        ({
            let views = action::array_edit_views(edits@);
            let before = json::json_views(old(target)@);
            let error = patch::edits_error(views, before.len() as int, array_patch_wording());
            match result {
                Ok(_) => {
                    &&& error is None
                    &&& json::json_views(final(target)@) == patch::patched(
                        before,
                        views,
                        views.len(),
                    )
                },
                Err(e) => error == Some(e@) && final(target)@ == old(target)@,
            }
        }),
{
    let ghost views = action::array_edit_views(edits@);
    let ghost before = json::json_views(target@);
    assert(before.len() == target@.len());
    if let Err(e) = validate_array_patch_edits(edits.as_slice(), target.len()) {
        return Err(e);
    }
    for edit in iter: edits
        invariant
            iter.seq() == edits@,
            views == action::array_edit_views(edits@),
            patch::first_edit_error(
                views,
                views.len(),
                before.len() as int,
                array_patch_wording(),
            ) is None,
            json::json_views(target@) == patch::patched(before, views, iter.index() as nat),
    {
        let ghost at = iter.index() as int;
        let ghost current = target@;
        assert(views[at] == edits@[at]@);
        assert(json::json_views(current).len() == current.len());
        proof {
            patch::lemma_patched(before, views, at as nat, array_patch_wording());
            patch::lemma_edit_fine(
                views,
                views.len(),
                before.len() as int,
                array_patch_wording(),
                at,
            );
        }
        let start: usize = edit.start;
        let delete_count: usize = edit.delete_count;
        let inserted: Vec<JsonValue> = edit.values;
        patch::replace_range(target, start, delete_count, inserted);
        assert(json::json_views(target@) =~= patch::spliced(
            json::json_views(current),
            edits@[at]@,
        ));
    }
    Ok(())
}

/// Applies local edits to an existing array at an object, array, or root path.
pub fn apply_array_patch(
    root: &mut JsonValue,
    path: &[PathSegment],
    edits: Vec<ArrayPatchEdit>,
) -> (result: Result<(), JsyncError>)
    ensures
        ({
            let expected = array_patch_at(
                old(root)@,
                action::path_view(path@),
                action::array_edit_views(edits@),
            );
            match result {
                Ok(_) => expected == Ok::<Json, ErrorModel>(final(root)@),
                Err(e) => {
                    &&& expected == Err::<Json, ErrorModel>(e@)
                    &&& final(root)@ == old(root)@
                },
            }
        }),
{
    broadcast use json::lemma_array_view;

    match resolve_value(root, path) {
        Ok(target) => {
            if let JsonValue::Array(array) = target {
                patch_array(array, edits)
            } else {
                Err(
                    JsyncError::new(
                        JsyncErrorKind::ApplyFailed,
                        "The ARRAY_PATCH path target is not an array.",
                    ).with_context("while applying the ARRAY_PATCH action"),
                )
            }
        },
        Err(e) => Err(e.with_context("while resolving an ARRAY_PATCH path target")),
    }
}

/// The error of a path from which a value is copied or moved, if there is one: it contains `-`
/// among its first `count` segments.
pub open spec fn from_path_error(from: Seq<Segment>, count: nat) -> Option<ErrorModel>
    decreases count,
{
    if count == 0 || count > from.len() {
        None
    } else {
        match from_path_error(from, (count - 1) as nat) {
            Some(e) => Some(e),
            None => if from[count - 1] == Segment::Key("-"@) {
                Some(
                    error::failure(
                        JsyncErrorKind::InvalidPath,
                        "The from path cannot contain '-'."@,
                    ).with_metadata("segment"@, "-"@).with_metadata(
                        "segment_index"@,
                        text::decimal(count - 1),
                    ),
                )
            } else {
                None
            },
        }
    }
}

proof fn lemma_from_path_error(from: Seq<Segment>, count: nat)
    requires
        count <= from.len(),
        from_path_error(from, count) is Some,
    ensures
        from_path_error(from, from.len()) == from_path_error(from, count),
    decreases from.len() - count,
{
    if count < from.len() {
        lemma_from_path_error(from, count + 1);
    }
}

/// Checks that a path from which a value is copied or moved does not contain `-`.
pub fn validate_from_path(from: &[PathSegment]) -> (result: Result<(), JsyncError>)
    ensures
        ({
            let segments = action::path_view(from@);
            match result {
                Ok(_) => from_path_error(segments, segments.len()) is None,
                Err(e) => from_path_error(segments, segments.len()) == Some(e@),
            }
        }),
{
    let ghost segments = action::path_view(from@);
    let mut i: usize = 0;
    while i < from.len()
        invariant
            i <= from@.len(),
            segments == action::path_view(from@),
            from_path_error(segments, i as nat) is None,
        decreases from@.len() - i,
    {
        assert(segments[i as int] == from@[i as int]@);
        if let PathSegment::Key(key) = &from[i] {
            if text::same_text(key.as_str(), "-") {
                proof {
                    lemma_from_path_error(segments, i as nat + 1);
                }
                return Err(
                    JsyncError::new(
                        JsyncErrorKind::InvalidPath,
                        "The from path cannot contain '-'.",
                    ).with_metadata("segment", "-").with_metadata(
                        "segment_index",
                        text::count_text(i).as_str(),
                    ),
                );
            }
        }
        i = i + 1;
    }
    Ok(())
}

/// The document after a COPY.
pub open spec fn copy_at(root: Json, from: Seq<Segment>, path: Seq<Segment>) -> Result<
    Json,
    ErrorModel,
> {
    match from_path_error(from, from.len()) {
        Some(e) => Err(e.with_context("while validating COPY paths"@)),
        None => match resolve(root, from, 0, Step::Target) {
            Err(e) => Err(e.with_context("while resolving a COPY from path"@)),
            Ok(value) => error::in_context(
                add_at(root, path, value),
                "while applying COPY path"@,
            ),
        },
    }
}

/// Copies an existing JSON value to an object, array, or root path.
pub fn apply_copy(root: &mut JsonValue, from: &[PathSegment], path: &[PathSegment]) -> (result:
    Result<(), JsyncError>)
    ensures
        ({
            let expected = copy_at(
                old(root)@,
                action::path_view(from@),
                action::path_view(path@),
            );
            match result {
                Ok(_) => expected == Ok::<Json, ErrorModel>(final(root)@),
                Err(e) => {
                    &&& expected == Err::<Json, ErrorModel>(e@)
                    &&& final(root)@ == old(root)@
                },
            }
        }),
{
    if let Err(e) = validate_from_path(from) {
        return Err(e.with_context("while validating COPY paths"));
    }
    let value = match resolve_value(root, from) {
        Ok(value) => json::copy_value(&*value),
        Err(e) => {
            return Err(e.with_context("while resolving a COPY from path"));
        },
    };
    error::add_context(apply_add(root, path, value), "while applying COPY path")
}

/// The error of the paths of a MOVE, if there is one.
pub open spec fn move_paths_error(from: Seq<Segment>, path: Seq<Segment>) -> Option<ErrorModel> {
    if from.len() == 0 {
        Some(
            error::failure(
                JsyncErrorKind::InvalidPath,
                "The MOVE from path cannot target the root document."@,
            ),
        )
    } else if path.len() > from.len() && path.take(from.len() as int) == from {
        Some(
            error::failure(
                JsyncErrorKind::InvalidPath,
                "The MOVE path cannot target a child of the MOVE from path."@,
            ),
        )
    } else {
        None
    }
}

/// Tells whether one path begins with another.
fn starts_with(path: &[PathSegment], prefix: &[PathSegment]) -> (starts: bool)
    ensures
        starts == ({
            &&& prefix@.len() <= path@.len()
            &&& action::path_view(path@).take(prefix@.len() as int) == action::path_view(prefix@)
        }),
{
    let ghost whole = action::path_view(path@);
    let ghost start = action::path_view(prefix@);
    if prefix.len() > path.len() {
        return false;
    }
    let mut i: usize = 0;
    while i < prefix.len()
        invariant
            i <= prefix@.len() <= path@.len(),
            whole == action::path_view(path@),
            start == action::path_view(prefix@),
            forall|j: int| 0 <= j < i ==> #[trigger] whole[j] == start[j],
        decreases prefix@.len() - i,
    {
        assert(whole[i as int] == path@[i as int]@);
        assert(start[i as int] == prefix@[i as int]@);
        if !action::same_segment(&path[i], &prefix[i]) {
            assert(whole.take(prefix@.len() as int)[i as int] != start[i as int]);
            return false;
        }
        i = i + 1;
    }
    assert(whole.take(prefix@.len() as int) =~= start);
    true
}

/// Tells whether a path leads to a part of what another path leads to.
pub fn is_descendant_path(parent: &[PathSegment], child: &[PathSegment]) -> (descendant: bool)
    ensures
        descendant == ({
            &&& child@.len() > parent@.len()
            &&& action::path_view(child@).take(parent@.len() as int) == action::path_view(parent@)
        }),
{
    child.len() > parent.len() && starts_with(child, parent)
}

/// Checks the paths of a MOVE.
pub fn validate_move_paths(from: &[PathSegment], path: &[PathSegment]) -> (result: Result<
    (),
    JsyncError,
>)
    ensures
        ({
            let expected = move_paths_error(action::path_view(from@), action::path_view(path@));
            match result {
                Ok(_) => expected is None,
                Err(e) => expected == Some(e@),
            }
        }),
{
    if from.len() == 0 {
        return Err(
            JsyncError::new(
                JsyncErrorKind::InvalidPath,
                "The MOVE from path cannot target the root document.",
            ),
        );
    }
    if is_descendant_path(from, path) {
        return Err(
            JsyncError::new(
                JsyncErrorKind::InvalidPath,
                "The MOVE path cannot target a child of the MOVE from path.",
            ),
        );
    }
    Ok(())
}

/// The value at a path, and the document without it.
pub open spec fn take_at(root: Json, path: Seq<Segment>) -> Result<(Json, Json), ErrorModel> {
    if path.len() == 0 {
        Err(
            error::failure(
                JsyncErrorKind::InvalidPath,
                "The MOVE from path cannot target the root document."@,
            ).with_context("while applying the final MOVE from path segment"@),
        )
    } else {
        match parent_at(root, path, Step::Move, "while resolving a MOVE from path parent"@) {
            Err(e) => Err(e),
            Ok(parent) => Ok(
                (
                    child(parent, path.last()),
                    put(root, path.drop_last(), 0, remove_from(parent, path.last())),
                ),
            ),
        }
    }
}

/// Removes an existing value and returns it for a MOVE action.
pub fn remove_and_return(root: &mut JsonValue, path: &[PathSegment]) -> (result: Result<
    JsonValue,
    JsyncError,
>)
    ensures
        match result {
            Ok(value) => take_at(old(root)@, action::path_view(path@)) == Ok::<
                (Json, Json),
                ErrorModel,
            >((value@, final(root)@)),
            Err(e) => {
                &&& take_at(old(root)@, action::path_view(path@)) == Err::<
                    (Json, Json),
                    ErrorModel,
                >(e@)
                &&& final(root)@ == old(root)@
            },
        },
{
    if path.len() == 0 {
        return Err(
            JsyncError::new(
                JsyncErrorKind::InvalidPath,
                "The MOVE from path cannot target the root document.",
            ).with_context("while applying the final MOVE from path segment"),
        );
    }
    let last: usize = path.len() - 1;
    assert(action::path_view(path@).last() == path@[last as int]@);
    match resolve_container(root, path, Step::Move, "while resolving a MOVE from path parent") {
        Ok(parent) => Ok(take_child(parent, &path[last], last, Step::Move)),
        Err(e) => Err(e),
    }
}

/// The document after a MOVE.
pub open spec fn move_at(root: Json, from: Seq<Segment>, path: Seq<Segment>) -> Result<
    Json,
    ErrorModel,
> {
    match from_path_error(from, from.len()) {
        Some(e) => Err(e.with_context("while validating MOVE paths"@)),
        None => if from == path {
            Ok(root)
        } else {
            match move_paths_error(from, path) {
                Some(e) => Err(e.with_context("while validating MOVE paths"@)),
                None => match take_at(root, from) {
                    Err(e) => Err(e.with_context("while resolving a MOVE from path"@)),
                    Ok((value, rest)) => error::in_context(
                        add_at(rest, path, value),
                        "while applying MOVE path"@,
                    ),
                },
            }
        },
    }
}

/// What a MOVE that fails leaves: the value is gone if it could be taken out but not put in.
pub open spec fn left_by_failed_move(root: Json, from: Seq<Segment>, path: Seq<Segment>) -> Json {
    if from_path_error(from, from.len()) is None && move_paths_error(from, path) is None {
        match take_at(root, from) {
            Ok((_, rest)) => rest,
            Err(_) => root,
        }
    } else {
        root
    }
}

/// Moves an existing JSON value to an object, array, or root path. When the value has been taken
/// out and cannot be put in, it stays out.
pub fn apply_move(root: &mut JsonValue, from: &[PathSegment], path: &[PathSegment]) -> (result:
    Result<(), JsyncError>)
    ensures
        ({
            let expected = move_at(
                old(root)@,
                action::path_view(from@),
                action::path_view(path@),
            );
            match result {
                Ok(_) => expected == Ok::<Json, ErrorModel>(final(root)@),
                Err(e) => {
                    &&& expected == Err::<Json, ErrorModel>(e@)
                    &&& final(root)@ == left_by_failed_move(
                        old(root)@,
                        action::path_view(from@),
                        action::path_view(path@),
                    )
                },
            }
        }),
{
    if let Err(e) = validate_from_path(from) {
        return Err(e.with_context("while validating MOVE paths"));
    }
    let ghost source = action::path_view(from@);
    let ghost target = action::path_view(path@);
    if from.len() == path.len() && starts_with(path, from) {
        assert(target.take(target.len() as int) =~= target);
        return Ok(());
    }
    proof {
        if source == target {
            assert(target.take(target.len() as int) =~= target);
        }
    }
    if let Err(e) = validate_move_paths(from, path) {
        return Err(e.with_context("while validating MOVE paths"));
    }
    match remove_and_return(root, from) {
        Ok(value) => error::add_context(apply_add(root, path, value), "while applying MOVE path"),
        Err(e) => Err(e.with_context("while resolving a MOVE from path")),
    }
}

/// The document after an action.
pub open spec fn apply_act(root: Json, act: Act) -> Result<Json, ErrorModel> {
    match act {
        Act::Snapshot { value } => Ok(value),
        Act::Add { path, value } => add_at(root, path, value),
        Act::Remove { path } => remove_at(root, path),
        Act::Replace { path, value } => replace_at(root, path, value),
        Act::StringAppend { path, text } => append_at(root, path, text),
        Act::StringPrepend { path, text } => prepend_at(root, path, text),
        Act::StringPatch { path, edits } => string_patch_at(root, path, edits),
        Act::ArrayPatch { path, edits } => array_patch_at(root, path, edits),
        Act::Copy { from, path } => copy_at(root, from, path),
        Act::Move { from, path } => move_at(root, from, path),
    }
}

/// What an action that fails leaves of a document: the document, unless it is a MOVE.
pub open spec fn left_by_failure(root: Json, act: Act) -> Json {
    match act {
        Act::Move { from, path } => left_by_failed_move(root, from, path),
        _ => root,
    }
}

/// Applies one validated action to a working document.
#[verifier::rlimit(40)]
pub fn apply_action(root: &mut JsonValue, action: Action) -> (result: Result<(), JsyncError>)
    ensures
        match result {
            Ok(_) => apply_act(old(root)@, action@) == Ok::<Json, ErrorModel>(final(root)@),
            Err(e) => {
                &&& apply_act(old(root)@, action@) == Err::<Json, ErrorModel>(e@)
                &&& final(root)@ == left_by_failure(old(root)@, action@)
            },
        },
{
    match action {
        Action::Snapshot { value } => {
            *root = value;
            Ok(())
        },
        Action::Add { path, value } => apply_add(root, path.as_slice(), value),
        Action::Remove { path } => apply_remove(root, path.as_slice()),
        Action::Replace { path, value } => apply_replace(root, path.as_slice(), value),
        Action::StringAppend { path, text } => apply_string_append(
            root,
            path.as_slice(),
            text.as_str(),
        ),
        Action::StringPrepend { path, text } => apply_string_prepend(
            root,
            path.as_slice(),
            text.as_str(),
        ),
        Action::StringPatch { path, edits } => apply_string_patch(
            root,
            path.as_slice(),
            edits.as_slice(),
        ),
        Action::ArrayPatch { path, edits } => apply_array_patch(root, path.as_slice(), edits),
        Action::Copy { from, path } => apply_copy(root, from.as_slice(), path.as_slice()),
        Action::Move { from, path } => apply_move(root, from.as_slice(), path.as_slice()),
    }
}

} // verus!
