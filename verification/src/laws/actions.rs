//! What actions do to a document, as seen from its paths.

use vstd::prelude::*;

use crate::apply;
use crate::apply::Step;
use crate::error::{ErrorModel, JsyncErrorKind};
use crate::json;
use crate::json::Json;
use crate::laws::paths;
use crate::laws::validity;
use crate::message::action::{Act, Edit, Segment};
use crate::patch;
use crate::patch::PatchWording;
use crate::string_map;

verus! {

/// The part of a value that a segment names, if it has one.
pub open spec fn part(value: Json, segment: Segment) -> Option<Json> {
    match (value, segment) {
        (Json::Object(entries), Segment::Key(key)) => string_map::value_of(entries, key),
        (Json::Array(items), Segment::Index(index)) => if 0 <= index < items.len() {
            Some(items[index])
        } else {
            None
        },
        _ => None,
    }
}

/// The value at the end of a path, from its segment at `at` on, if there is one.
pub open spec fn value_from(value: Json, path: Seq<Segment>, at: int) -> Option<Json>
    decreases path.len() - at,
{
    if at >= path.len() {
        Some(value)
    } else {
        match part(value, path[at]) {
            Some(inner) => value_from(inner, path, at + 1),
            None => None,
        }
    }
}

/// The value at a path of a document, if there is one.
pub open spec fn value_at(document: Json, path: Seq<Segment>) -> Option<Json> {
    value_from(document, path, 0)
}

/// Whether two paths part, so that neither leads on from the other.
pub open spec fn part_ways(p: Seq<Segment>, q: Seq<Segment>) -> bool {
    exists|i: int| 0 <= i < p.len() && i < q.len() && #[trigger] p[i] != q[i]
}

/// In an object, the value under a key is the one that stands beside it.
pub proof fn law_properties_are_found_by_key(
    entries: Seq<(Seq<char>, Json)>,
    key: Seq<char>,
    value: Json,
)
    requires
        json::valid(Json::Object(entries)),
    ensures
        part(Json::Object(entries), Segment::Key(key)) == Some(value) <==> entries.contains(
            (key, value),
        ),
{
    let object = Json::Object(entries);
    assert(object->Object_0 == entries);
    string_map::lemma_slot_range(entries, key);
    if entries.contains((key, value)) {
        let i = choose|i: int| 0 <= i < entries.len() && entries[i] == (key, value);
        string_map::lemma_slot_of(entries, i);
    }
    if part(object, Segment::Key(key)) == Some(value) {
        assert(entries[string_map::slot(entries, key)] == (key, value));
    }
}

/// Following a path finds what stands there.
pub proof fn lemma_observed(value: Json, path: Seq<Segment>, at: int, step: Step)
    requires
        paths::counted(path),
        0 <= at,
        step is Target || step is Parent,
    ensures
        value_from(value, path, at) == match apply::resolve(value, path, at, step) {
            Ok(found) => Some(found),
            Err(_) => None,
        },
    decreases path.len() - at,
{
    if at < path.len() {
        assert(path[at] matches Segment::Index(n) ==> n >= 0);
        if apply::step_error(value, path[at], at, step) is None {
            assert(part(value, path[at]) == Some(apply::child(value, path[at])));
            lemma_observed(apply::child(value, path[at]), path, at + 1, step);
        } else {
            assert(part(value, path[at]) is None);
        }
    }
}

pub proof fn lemma_valid_part(value: Json, segment: Segment)
    requires
        json::valid(value),
        part(value, segment) is Some,
    ensures
        json::valid(part(value, segment)->0),
{
    if let (Json::Object(entries), Segment::Key(key)) = (value, segment) {
        string_map::lemma_slot_range(entries, key);
        assert(json::valid(entries[string_map::slot(entries, key)].1));
    }
}

pub proof fn lemma_valid_value(value: Json, path: Seq<Segment>, at: int)
    requires
        json::valid(value),
        0 <= at,
        value_from(value, path, at) is Some,
    ensures
        json::valid(value_from(value, path, at)->0),
    decreases path.len() - at,
{
    if at < path.len() {
        lemma_valid_part(value, path[at]);
        lemma_valid_value(part(value, path[at])->0, path, at + 1);
    }
}

/// What putting a part into a value does to its parts.
proof fn lemma_with_child(value: Json, segment: Segment, inner: Json, other: Segment)
    requires
        json::valid(value),
        part(value, segment) is Some,
    ensures
        part(apply::with_child(value, segment, inner), other) == if other == segment {
            Some(inner)
        } else {
            part(value, other)
        },
{
    match (value, segment) {
        (Json::Object(entries), Segment::Key(key)) => {
            string_map::lemma_put_value(entries, key, inner);
            if let Segment::Key(k) = other {
                assert(string_map::value_of(string_map::with_entry(entries, key, inner), k) == if k
                    == key {
                    Some(inner)
                } else {
                    string_map::value_of(entries, k)
                });
            }
        },
        _ => {},
    }
}

/// What has been put at a path stands there.
proof fn lemma_put_there(value: Json, path: Seq<Segment>, at: int, inner: Json)
    requires
        json::valid(value),
        0 <= at,
        value_from(value, path, at) is Some,
    ensures
        value_from(apply::put(value, path, at, inner), path, at) == Some(inner),
    decreases path.len() - at,
{
    if at < path.len() {
        let next = part(value, path[at])->0;
        assert(next == apply::child(value, path[at]));
        lemma_valid_part(value, path[at]);
        lemma_put_there(next, path, at + 1, inner);
        lemma_with_child(
            value,
            path[at],
            apply::put(next, path, at + 1, inner),
            path[at],
        );
    }
}

/// Putting a value at a path leaves what stands at other paths alone.
proof fn lemma_put_elsewhere(value: Json, path: Seq<Segment>, at: int, inner: Json, q: Seq<Segment>)
    requires
        json::valid(value),
        0 <= at,
        value_from(value, path, at) is Some,
        exists|i: int| at <= i < path.len() && i < q.len() && #[trigger] path[i] != q[i],
    ensures
        value_from(apply::put(value, path, at, inner), q, at) == value_from(value, q, at),
    decreases path.len() - at,
{
    let next = part(value, path[at])->0;
    assert(next == apply::child(value, path[at]));
    let changed = apply::put(next, path, at + 1, inner);
    lemma_valid_part(value, path[at]);
    lemma_with_child(value, path[at], changed, q[at]);
    if path[at] == q[at] {
        let i = choose|i: int| at <= i < path.len() && i < q.len() && #[trigger] path[i] != q[i];
        assert(i > at);
        lemma_put_elsewhere(next, path, at + 1, inner, q);
    }
}

/// Putting a value at a path, seen from a longer path.
proof fn lemma_put_below(value: Json, path: Seq<Segment>, at: int, inner: Json, q: Seq<Segment>)
    requires
        json::valid(value),
        0 <= at <= path.len() <= q.len(),
        value_from(value, path, at) is Some,
        q.take(path.len() as int) == path,
    ensures
        value_from(apply::put(value, path, at, inner), q, at) == value_from(
            inner,
            q,
            path.len() as int,
        ),
        value_from(value, q, at) == value_from(
            value_from(value, path, at)->0,
            q,
            path.len() as int,
        ),
    decreases path.len() - at,
{
    if at < path.len() {
        let next = part(value, path[at])->0;
        assert(next == apply::child(value, path[at]));
        assert(q[at] == q.take(path.len() as int)[at]);
        lemma_valid_part(value, path[at]);
        lemma_put_below(next, path, at + 1, inner, q);
        lemma_with_child(value, path[at], apply::put(next, path, at + 1, inner), path[at]);
    }
}

/// A path in front of its last segment.
pub proof fn lemma_parent(document: Json, path: Seq<Segment>, at: int)
    requires
        0 <= at < path.len(),
    ensures
        value_from(document, path, at) == match value_from(document, path.drop_last(), at) {
            Some(parent) => part(parent, path.last()),
            None => None,
        },
    decreases path.len() - at,
{
    let front = path.drop_last();
    if at < front.len() {
        assert(front[at] == path[at]);
        if let Some(inner) = part(document, path[at]) {
            lemma_parent(inner, path, at + 1);
        }
    } else {
        assert(path[at] == path.last());
        if let Some(inner) = part(document, path[at]) {
            assert(value_from(inner, path, at + 1) == Some(inner));
        }
    }
}

pub proof fn lemma_parent_counted(path: Seq<Segment>)
    requires
        paths::counted(path),
        path.len() > 0,
    ensures
        paths::counted(path.drop_last()),
        path.last() matches Segment::Index(n) ==> n >= 0,
{
    assert forall|i: int| 0 <= i < path.drop_last().len() implies (
    #[trigger] path.drop_last()[i] matches Segment::Index(n) ==> n >= 0) by {
        assert(path.drop_last()[i] == path[i]);
    }
}

/// SNAPSHOT gives its value, whatever the document was. So do ADD and REPLACE at the root.
pub proof fn law_snapshot_gives_its_value(document: Json, value: Json)
    ensures
        apply::apply_act(document, Act::Snapshot { value }) == Ok::<Json, ErrorModel>(value),
        apply::apply_act(document, Act::Add { path: Seq::empty(), value }) == Ok::<
            Json,
            ErrorModel,
        >(value),
        apply::apply_act(document, Act::Replace { path: Seq::empty(), value }) == Ok::<
            Json,
            ErrorModel,
        >(value),
        apply::apply_act(document, Act::Remove { path: Seq::empty() }) is Err,
{
}

/// REPLACE succeeds just when there is a value at its path. The new value then stands there, and at
/// every path that parts from it stands what stood there before.
pub proof fn law_replace_changes_the_value_at_its_path(
    document: Json,
    path: Seq<Segment>,
    value: Json,
)
    requires
        json::valid(document),
        paths::counted(path),
    ensures
        match apply::apply_act(document, Act::Replace { path, value }) {
            Ok(after) => {
                &&& value_at(document, path) is Some
                &&& value_at(after, path) == Some(value)
                &&& forall|q: Seq<Segment>|
                    part_ways(path, q) ==> #[trigger] value_at(after, q) == value_at(document, q)
            },
            Err(_) => value_at(document, path) is None,
        },
{
    if path.len() > 0 {
        let front = path.drop_last();
        lemma_parent_counted(path);
        lemma_observed(document, front, 0, Step::Parent);
        lemma_parent(document, path, 0);
        if let Ok(after) = apply::apply_act(document, Act::Replace { path, value }) {
            let parent = value_at(document, front)->0;
            lemma_put_last(document, path, 0, value);
            assert(after == apply::put(document, path, 0, value));
            lemma_put_there(document, path, 0, value);
            assert forall|q: Seq<Segment>| part_ways(path, q) implies #[trigger] value_at(after, q)
                == value_at(document, q) by {
                lemma_put_elsewhere(document, path, 0, value, q);
            }
        }
    } else {
        assert forall|q: Seq<Segment>| !part_ways(path, q) by {}
    }
}

/// Putting a value at a path puts its parent, changed there, at the parent's path.
proof fn lemma_put_last(document: Json, path: Seq<Segment>, at: int, value: Json)
    requires
        0 <= at < path.len(),
        value_from(document, path.drop_last(), at) is Some,
    ensures
        apply::put(document, path, at, value) == apply::put(
            document,
            path.drop_last(),
            at,
            apply::with_child(
                value_from(document, path.drop_last(), at)->0,
                path.last(),
                value,
            ),
        ),
    decreases path.len() - at,
{
    let front = path.drop_last();
    if at < front.len() {
        assert(front[at] == path[at]);
        let next = part(document, path[at])->0;
        assert(next == apply::child(document, path[at]));
        lemma_put_last(next, path, at + 1, value);
    } else {
        assert(path[at] == path.last());
        let next = apply::child(document, path[at]);
        assert(apply::put(next, path, at + 1, value) == value);
    }
}

/// Whether one sequence is another with a value put in at a position.
pub open spec fn inserted(before: Seq<Json>, at: int, value: Json, after: Seq<Json>) -> bool {
    &&& 0 <= at <= before.len()
    &&& after.len() == before.len() + 1
    &&& after[at] == value
    &&& forall|j: int| 0 <= j < at ==> #[trigger] after[j] == before[j]
    &&& forall|j: int| at <= j < before.len() ==> #[trigger] after[j + 1] == before[j]
}

/// Where ADD puts a value into an array, if it does.
pub open spec fn insert_position(segment: Segment, length: int) -> Option<int> {
    match segment {
        Segment::Index(index) => if index <= length {
            Some(index)
        } else {
            None
        },
        Segment::Key(key) => if key == seq!['-'] {
            Some(length)
        } else {
            None
        },
    }
}

/// ADD to an object sets one property, and leaves the others alone. ADD to an array puts the value
/// in at the index, or at the end for `-`: the items in front of it stay, and the others move up by
/// one. ADD to anything else, and beyond the end of an array, fails. What stands at paths that part
/// from that of the object or array is left alone.
pub proof fn law_add_puts_a_value_in(document: Json, path: Seq<Segment>, value: Json)
    requires
        json::valid(document),
        paths::counted(path),
        path.len() > 0,
    ensures
        ({
            let parent = path.drop_last();
            let result = apply::apply_act(document, Act::Add { path, value });
            &&& match (value_at(document, parent), path.last()) {
                (Some(Json::Object(old)), Segment::Key(key)) => {
                    &&& result matches Ok(after) && value_at(after, parent) matches Some(
                        Json::Object(new),
                    ) && forall|k: Seq<char>| #[trigger]
                        string_map::value_of(new, k) == if k == key {
                            Some(value)
                        } else {
                            string_map::value_of(old, k)
                        }
                },
                (Some(Json::Array(old)), segment) => match insert_position(
                    segment,
                    old.len() as int,
                ) {
                    Some(at) => result matches Ok(after) && value_at(after, parent) matches Some(
                        Json::Array(new),
                    ) && inserted(old, at, value, new),
                    None => result is Err,
                },
                _ => result is Err,
            }
            &&& result matches Ok(after) ==> forall|q: Seq<Segment>|
                part_ways(parent, q) ==> #[trigger] value_at(after, q) == value_at(document, q)
        }),
{
    let parent = path.drop_last();
    lemma_parent_counted(path);
    lemma_observed(document, parent, 0, Step::Parent);
    reveal_strlit("-");
    assert("-"@ =~= seq!['-']);
    if let Ok(after) = apply::apply_act(document, Act::Add { path, value }) {
        let container = value_at(document, parent)->0;
        lemma_valid_value(document, parent, 0);
        let changed = apply::add_to(container, path.last(), value);
        lemma_put_there(document, parent, 0, changed);
        if let (Json::Object(old), Segment::Key(key)) = (container, path.last()) {
            string_map::lemma_put_value(old, key, value);
        }
        assert forall|q: Seq<Segment>| part_ways(parent, q) implies #[trigger] value_at(after, q)
            == value_at(document, q) by {
            lemma_put_elsewhere(document, parent, 0, changed, q);
        }
    }
}

/// REMOVE succeeds just when there is a value at its path, other than the root. An object then has
/// the other properties as before and no longer this one. An array has the items in front as before,
/// and those behind move down by one. What stands at paths that part from that of the object or
/// array is left alone.
pub proof fn law_remove_takes_a_value_out(document: Json, path: Seq<Segment>)
    requires
        json::valid(document),
        paths::counted(path),
        path.len() > 0,
    ensures
        ({
            let parent = path.drop_last();
            match apply::apply_act(document, Act::Remove { path }) {
                Ok(after) => {
                    &&& value_at(document, path) is Some
                    &&& match (value_at(document, parent), value_at(after, parent), path.last()) {
                        (
                            Some(Json::Object(old)),
                            Some(Json::Object(new)),
                            Segment::Key(key),
                        ) => forall|k: Seq<char>| #[trigger]
                            string_map::value_of(new, k) == if k == key {
                                None
                            } else {
                                string_map::value_of(old, k)
                            },
                        (
                            Some(Json::Array(old)),
                            Some(Json::Array(new)),
                            Segment::Index(at),
                        ) => inserted(new, at, value_at(document, path)->0, old),
                        _ => false,
                    }
                    &&& forall|q: Seq<Segment>|
                        part_ways(parent, q) ==> #[trigger] value_at(after, q) == value_at(
                            document,
                            q,
                        )
                },
                Err(_) => value_at(document, path) is None,
            }
        }),
{
    let parent = path.drop_last();
    lemma_parent_counted(path);
    lemma_observed(document, parent, 0, Step::Parent);
    lemma_parent(document, path, 0);
    if let Ok(after) = apply::apply_act(document, Act::Remove { path }) {
        let container = value_at(document, parent)->0;
        lemma_valid_value(document, parent, 0);
        let changed = apply::remove_from(container, path.last());
        lemma_put_there(document, parent, 0, changed);
        if let (Json::Object(old), Segment::Key(key)) = (container, path.last()) {
            string_map::lemma_removed_value(old, key);
        }
        assert forall|q: Seq<Segment>| part_ways(parent, q) implies #[trigger] value_at(after, q)
            == value_at(document, q) by {
            lemma_put_elsewhere(document, parent, 0, changed, q);
        }
    }
}

/// Whether two results are alike: both fail, with errors of the same kind, or both give the same.
pub open spec fn alike(a: Result<Json, ErrorModel>, b: Result<Json, ErrorModel>) -> bool {
    match (a, b) {
        (Ok(x), Ok(y)) => x == y,
        (Err(x), Err(y)) => x.kind == y.kind,
        _ => false,
    }
}

/// COPY gives what ADD of the value at its source gives. It fails where there is none, and where
/// the path of the source has `-` in it.
pub proof fn law_copy_adds_the_value_at_its_source(
    document: Json,
    from: Seq<Segment>,
    path: Seq<Segment>,
)
    requires
        paths::counted(from),
    ensures
        ({
            let result = apply::apply_act(document, Act::Copy { from, path });
            match value_at(document, from) {
                Some(value) if !from.contains(Segment::Key(seq!['-'])) => alike(
                    result,
                    apply::apply_act(document, Act::Add { path, value }),
                ),
                _ => result is Err,
            }
        }),
{
    lemma_observed(document, from, 0, Step::Target);
    lemma_dashes(from, from.len());
}

proof fn lemma_dashes(from: Seq<Segment>, count: nat)
    requires
        count <= from.len(),
    ensures
        apply::from_path_error(from, count) is Some <==> from.take(count as int).contains(
            Segment::Key(seq!['-']),
        ),
        from.take(from.len() as int) == from,
    decreases count,
{
    reveal_strlit("-");
    assert("-"@ =~= seq!['-']);
    assert(from.take(from.len() as int) =~= from);
    let dash = Segment::Key(seq!['-']);
    let steps = from.take(count as int);
    if count > 0 {
        lemma_dashes(from, (count - 1) as nat);
        let before = from.take(count - 1);
        assert(steps =~= before.push(from[count - 1]));
        if before.contains(dash) {
            let i = choose|i: int| 0 <= i < before.len() && before[i] == dash;
            assert(steps[i] == dash);
        }
        if from[count - 1] == dash {
            assert(steps[count - 1] == dash);
        }
        if steps.contains(dash) && from[count - 1] != dash {
            let i = choose|i: int| 0 <= i < steps.len() && steps[i] == dash;
            assert(before[i] == dash);
        }
    }
}

/// MOVE gives what REMOVE at its source and then ADD of the value that stood there give. It fails
/// where there is none, where the path of the source has `-` in it, where the source is the root,
/// and where the target lies below the source. A MOVE of a value to where it stands changes
/// nothing.
pub proof fn law_move_removes_and_adds(document: Json, from: Seq<Segment>, path: Seq<Segment>)
    requires
        paths::counted(from),
    ensures
        ({
            let result = apply::apply_act(document, Act::Move { from, path });
            if from.contains(Segment::Key(seq!['-'])) {
                result is Err
            } else if from == path {
                result == Ok::<Json, ErrorModel>(document)
            } else if from.len() == 0 || (path.len() > from.len() && path.take(from.len() as int)
                == from) {
                result is Err
            } else {
                match (value_at(document, from), apply::apply_act(document, Act::Remove { path: from })) {
                    (Some(value), Ok(rest)) => alike(
                        result,
                        apply::apply_act(rest, Act::Add { path, value }),
                    ),
                    _ => result is Err,
                }
            }
        }),
{
    lemma_dashes(from, from.len());
    if from.len() > 0 {
        let parent = from.drop_last();
        lemma_parent_counted(from);
        lemma_observed(document, parent, 0, Step::Parent);
        lemma_parent(document, from, 0);
    }
}

/// A property that has been moved to another property is gone from where it was, and stands where
/// it was moved to. The target lies neither above nor below the source.
pub proof fn law_moved_properties_are_gone(
    document: Json,
    from: Seq<Segment>,
    path: Seq<Segment>,
)
    requires
        json::valid(document),
        paths::counted(from),
        paths::counted(path),
        from.len() > 0,
        from.last() is Key,
        path.len() > 0,
        part_ways(from, path),
        apply::apply_act(document, Act::Move { from, path }) is Ok,
        value_at(
            apply::apply_act(document, Act::Remove { path: from })->Ok_0,
            path.drop_last(),
        ) matches Some(Json::Object(_)),
    ensures
        ({
            let after = apply::apply_act(document, Act::Move { from, path })->Ok_0;
            &&& value_at(after, from) is None
            &&& value_at(after, path) == value_at(document, from)
            &&& value_at(document, from) is Some
        }),
{
    law_move_removes_and_adds(document, from, path);
    law_remove_takes_a_value_out(document, from);
    lemma_parted(from, path);
    let rest = apply::apply_act(document, Act::Remove { path: from })->Ok_0;
    let value = value_at(document, from)->0;
    let after = apply::apply_act(document, Act::Move { from, path })->Ok_0;
    lemma_parent(rest, from, 0);
    lemma_parent(after, path, 0);
    assert(value_at(rest, from) is None);
    lemma_removed_valid(document, from);
    law_add_puts_a_value_in(rest, path, value);
    lemma_add_elsewhere(rest, path, value, from);
}

proof fn lemma_parted(from: Seq<Segment>, path: Seq<Segment>)
    requires
        part_ways(from, path),
    ensures
        from != path,
        !(path.len() > from.len() && path.take(from.len() as int) == from),
{
    let i = choose|i: int| 0 <= i < from.len() && i < path.len() && #[trigger] from[i] != path[i];
    if path.len() > from.len() {
        assert(path.take(from.len() as int)[i] == path[i]);
    }
}

proof fn lemma_removed_valid(document: Json, path: Seq<Segment>)
    requires
        json::valid(document),
        paths::counted(path),
        apply::apply_act(document, Act::Remove { path }) is Ok,
    ensures
        json::valid(apply::apply_act(document, Act::Remove { path })->Ok_0),
{
    validity::lemma_valid_apply(document, Act::Remove { path });
}

/// ADD to an object leaves what stands at every path that parts from its own alone.
pub proof fn law_add_to_an_object_leaves_the_rest_alone(
    document: Json,
    path: Seq<Segment>,
    value: Json,
    q: Seq<Segment>,
)
    requires
        json::valid(document),
        paths::counted(path),
        path.len() > 0,
        value_at(document, path.drop_last()) matches Some(Json::Object(_)),
        path.last() is Key,
        part_ways(path, q),
    ensures
        apply::apply_act(document, Act::Add { path, value }) matches Ok(after) && value_at(after, q)
            == value_at(document, q),
{
    law_add_puts_a_value_in(document, path, value);
    lemma_add_elsewhere(document, path, value, q);
}

proof fn lemma_add_elsewhere(
    document: Json,
    path: Seq<Segment>,
    value: Json,
    q: Seq<Segment>,
)
    requires
        json::valid(document),
        paths::counted(path),
        path.len() > 0,
        value_at(document, path.drop_last()) matches Some(Json::Object(_)),
        path.last() is Key,
        part_ways(path, q) || part_ways(q, path),
    ensures
        apply::apply_act(document, Act::Add { path, value }) matches Ok(after) && value_at(after, q)
            == value_at(document, q),
{
    let parent = path.drop_last();
    lemma_parent_counted(path);
    lemma_observed(document, parent, 0, Step::Parent);
    lemma_valid_value(document, parent, 0);
    let container = value_at(document, parent)->0;
    let changed = apply::add_to(container, path.last(), value);
    let key = path.last()->Key_0;
    let old = container->Object_0;
    string_map::lemma_put_value(old, key, value);
    let i = if part_ways(path, q) {
        choose|i: int| 0 <= i < path.len() && i < q.len() && #[trigger] path[i] != q[i]
    } else {
        choose|i: int| 0 <= i < q.len() && i < path.len() && #[trigger] q[i] != path[i]
    };
    let n = parent.len() as int;
    if q.len() >= n && q.take(n) =~= parent {
        if i < n {
            assert(q.take(n)[i] == q[i]);
            assert(parent[i] == path[i]);
        }
        assert(i == n);
        assert(q[n] != path.last());
        lemma_put_below(document, parent, 0, changed, q);
        assert(part(changed, q[n]) == part(container, q[n])) by {
            if let Segment::Key(k) = q[n] {
                assert(string_map::value_of(string_map::with_entry(old, key, value), k)
                    == string_map::value_of(old, k));
            }
        }
    } else {
        if q.len() >= n {
            let j = choose|j: int| 0 <= j < n && q.take(n)[j] != parent[j];
            assert(parent[j] != q[j]);
        } else {
            assert(i < n);
            assert(parent[i] == path[i]);
        }
        lemma_put_elsewhere(document, parent, 0, changed, q);
    }
}

/// APPEND and PREPEND give what REPLACE of the longer string gives. They fail where there is no
/// string at their path.
pub proof fn law_texts_are_added_at_the_ends(document: Json, path: Seq<Segment>, text: Seq<char>)
    requires
        paths::counted(path),
    ensures
        ({
            let append = apply::apply_act(document, Act::StringAppend { path, text });
            let prepend = apply::apply_act(document, Act::StringPrepend { path, text });
            match value_at(document, path) {
                Some(Json::String(old)) => {
                    &&& append == apply::apply_act(
                        document,
                        Act::Replace { path, value: Json::String(old + text) },
                    )
                    &&& prepend == apply::apply_act(
                        document,
                        Act::Replace { path, value: Json::String(text + old) },
                    )
                },
                _ => append is Err && prepend is Err,
            }
        }),
{
    lemma_observed(document, path, 0, Step::Target);
    if let Some(Json::String(old)) = value_at(document, path) {
        lemma_replaced(document, path, Json::String(old + text));
        lemma_replaced(document, path, Json::String(text + old));
    }
}

/// Whether edits are acceptable on a sequence of some length: there is one, each deletes or inserts
/// something within the sequence, and each lies in front of the one before it.
pub open spec fn acceptable<T>(edits: Seq<Edit<T>>, length: int) -> bool {
    &&& edits.len() > 0
    &&& forall|i: int|
        0 <= i < edits.len() ==> {
            &&& (#[trigger] edits[i]).delete_count != 0 || edits[i].items.len() > 0
            &&& edits[i].start + edits[i].delete_count <= length
        }
    &&& forall|i: int|
        0 < i < edits.len() ==> (#[trigger] edits[i]).start + edits[i].delete_count
            <= edits[i - 1].start
}

proof fn lemma_acceptable<T>(
    edits: Seq<Edit<T>>,
    count: nat,
    length: int,
    words: PatchWording,
)
    requires
        count <= edits.len(),
        length <= usize::MAX,
    ensures
        patch::first_edit_error(edits, count, length, words) is None <==> {
            &&& forall|i: int|
                0 <= i < count ==> {
                    &&& (#[trigger] edits[i]).delete_count != 0 || edits[i].items.len() > 0
                    &&& edits[i].start + edits[i].delete_count <= length
                }
            &&& forall|i: int|
                0 < i < count ==> (#[trigger] edits[i]).start + edits[i].delete_count
                    <= edits[i - 1].start
        },
    decreases count,
{
    if count > 0 {
        lemma_acceptable(edits, (count - 1) as nat, length, words);
        assert(patch::edit_error(edits, count - 1, length, words) is None <==> {
            &&& edits[count - 1].delete_count != 0 || edits[count - 1].items.len() > 0
            &&& edits[count - 1].start + edits[count - 1].delete_count <= length
            &&& count > 1 ==> edits[count - 1].start + edits[count - 1].delete_count
                <= edits[count - 2].start
        });
    }
}

/// STRING_PATCH and ARRAY_PATCH give what REPLACE of the edited string or array gives, in which each
/// edit has been made, the last in the sequence first. They fail where there is no string or array
/// at their path, and where the edits are not acceptable.
pub proof fn law_patches_replace_what_they_edit(
    document: Json,
    path: Seq<Segment>,
    texts: Seq<Edit<char>>,
    values: Seq<Edit<Json>>,
)
    requires
        paths::counted(path),
        json::in_memory(document),
    ensures
        ({
            let result = apply::apply_act(document, Act::StringPatch { path, edits: texts });
            match value_at(document, path) {
                Some(Json::String(old)) if acceptable(texts, old.len() as int) => result
                    == apply::apply_act(
                    document,
                    Act::Replace {
                        path,
                        value: Json::String(patch::patched(old, texts, texts.len())),
                    },
                ),
                _ => result is Err,
            }
        }),
        ({
            let result = apply::apply_act(document, Act::ArrayPatch { path, edits: values });
            match value_at(document, path) {
                Some(Json::Array(old)) if acceptable(values, old.len() as int) => result
                    == apply::apply_act(
                    document,
                    Act::Replace {
                        path,
                        value: Json::Array(patch::patched(old, values, values.len())),
                    },
                ),
                _ => result is Err,
            }
        }),
{
    lemma_observed(document, path, 0, Step::Target);
    if value_at(document, path) is Some {
        lemma_in_memory_value(document, path, 0);
    }
    if let Some(Json::String(old)) = value_at(document, path) {
        let words = apply::string_patch_wording();
        lemma_acceptable(texts, texts.len(), old.len() as int, words);
        lemma_replaced(
            document,
            path,
            Json::String(patch::patched(old, texts, texts.len())),
        );
    }
    if let Some(Json::Array(old)) = value_at(document, path) {
        let words = apply::array_patch_wording();
        lemma_acceptable(values, values.len(), old.len() as int, words);
        lemma_replaced(
            document,
            path,
            Json::Array(patch::patched(old, values, values.len())),
        );
    }
}

proof fn lemma_in_memory_value(value: Json, path: Seq<Segment>, at: int)
    requires
        json::in_memory(value),
        0 <= at,
        value_from(value, path, at) is Some,
    ensures
        json::in_memory(value_from(value, path, at)->0),
    decreases path.len() - at,
{
    if at < path.len() {
        let inner = part(value, path[at])->0;
        if let (Json::Object(entries), Segment::Key(key)) = (value, path[at]) {
            string_map::lemma_slot_range(entries, key);
            assert(json::in_memory(entries[string_map::slot(entries, key)].1));
        }
        lemma_in_memory_value(inner, path, at + 1);
    }
}

/// An acceptable edit keeps what stands in front of it and behind what it deletes, and puts its
/// items in between.
pub proof fn law_one_edit_changes_one_place<T>(items: Seq<T>, edit: Edit<T>)
    requires
        0 <= edit.start,
        0 <= edit.delete_count,
        edit.start + edit.delete_count <= items.len(),
    ensures
        ({
            let after = patch::patched(items, seq![edit], 1);
            &&& after.len() == items.len() - edit.delete_count + edit.items.len()
            &&& forall|i: int| 0 <= i < edit.start ==> #[trigger] after[i] == items[i]
            &&& forall|i: int|
                0 <= i < edit.items.len() ==> #[trigger] after[edit.start + i] == edit.items[i]
            &&& forall|i: int|
                edit.start + edit.delete_count <= i < items.len() ==> after[i - edit.delete_count
                    + edit.items.len()] == #[trigger] items[i]
        }),
{
    assert(patch::patched(items, seq![edit], 0) == items);
    assert(patch::patched(items, seq![edit], 1) == patch::spliced(items, edit));
}

/// Edits are made one after the other.
pub proof fn law_edits_are_made_in_turn<T>(items: Seq<T>, edits: Seq<Edit<T>>, last: Edit<T>)
    ensures
        patch::patched(items, edits.push(last), edits.len() + 1) == patch::patched(
            patch::patched(items, edits, edits.len()),
            seq![last],
            1,
        ),
{
    let all = edits.push(last);
    let before = patch::patched(items, edits, edits.len());
    lemma_first_edits(items, edits, all, edits.len());
    assert(all[edits.len() as int] == last);
    assert(patch::patched(before, seq![last], 0) == before);
    assert(patch::patched(before, seq![last], 1) == patch::spliced(before, last));
}

proof fn lemma_first_edits<T>(items: Seq<T>, a: Seq<Edit<T>>, b: Seq<Edit<T>>, count: nat)
    requires
        count <= a.len(),
        count <= b.len(),
        forall|i: int| 0 <= i < count ==> a[i] == b[i],
    ensures
        patch::patched(items, a, count) == patch::patched(items, b, count),
    decreases count,
{
    if count > 0 {
        lemma_first_edits(items, a, b, (count - 1) as nat);
    }
}

/// The kind of failure where a value has no part that a segment names.
pub open spec fn missing_part_kind(value: Json, segment: Segment) -> JsyncErrorKind {
    match (value, segment) {
        (Json::Object(_), Segment::Key(_)) => JsyncErrorKind::PathParentMissing,
        (Json::Array(_), Segment::Index(_)) => JsyncErrorKind::ArrayIndexOutOfBounds,
        (Json::Object(_), Segment::Index(_)) => JsyncErrorKind::InvalidPath,
        (Json::Array(_), Segment::Key(_)) => JsyncErrorKind::InvalidPath,
        _ => JsyncErrorKind::PathParentNotContainer,
    }
}

proof fn lemma_missing_part(
    value: Json,
    path: Seq<Segment>,
    at: int,
    step: Step,
    stop: int,
    last: Json,
)
    requires
        paths::counted(path),
        0 <= at <= stop < path.len(),
        step is Target || step is Parent,
        value_from(value, path.take(stop), at) == Some(last),
        part(last, path[stop]) is None,
    ensures
        apply::resolve(value, path, at, step) matches Err(e) && e.kind == missing_part_kind(
            last,
            path[stop],
        ),
    decreases stop - at,
{
    assert(path[at] matches Segment::Index(n) ==> n >= 0);
    if at < stop {
        assert(path.take(stop)[at] == path[at]);
        let next = part(value, path[at])->0;
        assert(next == apply::child(value, path[at]));
        assert(apply::step_error(value, path[at], at, step) is None);
        lemma_missing_part(next, path, at + 1, step, stop, last);
    } else {
        assert(path[stop] matches Segment::Index(n) ==> n >= 0);
    }
}

/// An action whose path leads nowhere fails with the kind of error that its first segment without
/// a part gives. ADD looks only as far as the object or array that it adds to, and so does the
/// target of COPY and MOVE.
pub proof fn law_paths_that_lead_nowhere_are_refused(
    document: Json,
    path: Seq<Segment>,
    stop: int,
    last: Json,
)
    requires
        paths::counted(path),
        0 <= stop < path.len(),
        value_at(document, path.take(stop)) == Some(last),
        part(last, path[stop]) is None,
    ensures
        ({
            let kind = missing_part_kind(last, path[stop]);
            &&& apply::apply_act(document, Act::Remove { path }) matches Err(e) && e.kind == kind
            &&& forall|value: Json| #[trigger]
                apply::apply_act(document, Act::Replace { path, value }) matches Err(e) && e.kind
                    == kind
            &&& forall|text: Seq<char>| #[trigger]
                apply::apply_act(document, Act::StringAppend { path, text }) matches Err(e)
                    && e.kind == kind
            &&& forall|text: Seq<char>| #[trigger]
                apply::apply_act(document, Act::StringPrepend { path, text }) matches Err(e)
                    && e.kind == kind
            &&& forall|edits: Seq<Edit<char>>| #[trigger]
                apply::apply_act(document, Act::StringPatch { path, edits }) matches Err(e)
                    && e.kind == kind
            &&& forall|edits: Seq<Edit<Json>>| #[trigger]
                apply::apply_act(document, Act::ArrayPatch { path, edits }) matches Err(e)
                    && e.kind == kind
            &&& stop < path.len() - 1 ==> forall|value: Json| #[trigger]
                apply::apply_act(document, Act::Add { path, value }) matches Err(e) && e.kind
                    == kind
            &&& forall|target: Seq<Segment>|
                !path.contains(Segment::Key(seq!['-'])) ==> (#[trigger] apply::apply_act(
                    document,
                    Act::Copy { from: path, path: target },
                ) matches Err(e) && e.kind == kind)
        }),
{
    let front = path.drop_last();
    lemma_parent_counted(path);
    lemma_missing_part(document, path, 0, Step::Target, stop, last);
    lemma_dashes(path, path.len());
    if stop < front.len() {
        assert(front.take(stop) =~= path.take(stop));
        assert(front[stop] == path[stop]);
        lemma_missing_part(document, front, 0, Step::Parent, stop, last);
    } else {
        assert(path.take(stop) =~= front);
        lemma_observed(document, front, 0, Step::Parent);
        assert(path[stop] == path.last());
    }
}

pub proof fn lemma_replaced(document: Json, path: Seq<Segment>, value: Json)
    requires
        paths::counted(path),
        value_at(document, path) is Some,
    ensures
        apply::apply_act(document, Act::Replace { path, value }) == Ok::<Json, ErrorModel>(
            apply::put(document, path, 0, value),
        ),
{
    if path.len() > 0 {
        lemma_parent_counted(path);
        lemma_observed(document, path.drop_last(), 0, Step::Parent);
        lemma_parent(document, path, 0);
        lemma_put_last(document, path, 0, value);
    }
}

/// Whether a result is a failure of some kind.
pub open spec fn fails_with(result: Result<Json, ErrorModel>, kind: JsyncErrorKind) -> bool {
    result matches Err(e) && e.kind == kind
}

/// ADD fails by what it is to add to: with an index on an object, or a key other than `-` on an
/// array, the path is invalid; an index beyond the end of an array is out of bounds; and nothing
/// can be added to any other value.
pub proof fn law_failed_additions_have_their_kinds(
    document: Json,
    path: Seq<Segment>,
    value: Json,
)
    requires
        paths::counted(path),
        path.len() > 0,
    ensures
        ({
            let result = apply::apply_act(document, Act::Add { path, value });
            match (value_at(document, path.drop_last()), path.last()) {
                (Some(Json::Object(_)), Segment::Index(_)) => fails_with(
                    result,
                    JsyncErrorKind::InvalidPath,
                ),
                (Some(Json::Array(items)), Segment::Index(index)) => index > items.len()
                    ==> fails_with(result, JsyncErrorKind::ArrayIndexOutOfBounds),
                (Some(Json::Array(_)), Segment::Key(key)) => key != seq!['-'] ==> fails_with(
                    result,
                    JsyncErrorKind::InvalidPath,
                ),
                (Some(Json::Object(_)), Segment::Key(_)) => result is Ok,
                (Some(_), _) => fails_with(result, JsyncErrorKind::PathParentNotContainer),
                (None, _) => result is Err,
            }
        }),
{
    reveal_strlit("-");
    assert("-"@ =~= seq!['-']);
    lemma_parent_counted(path);
    lemma_observed(document, path.drop_last(), 0, Step::Parent);
}

/// The root can be neither removed nor moved, and nothing can be moved below itself, or copied or
/// moved from a path with `-` in it: such a path is invalid.
pub proof fn law_invalid_sources_have_their_kind(
    document: Json,
    from: Seq<Segment>,
    path: Seq<Segment>,
)
    ensures
        fails_with(
            apply::apply_act(document, Act::Remove { path: Seq::empty() }),
            JsyncErrorKind::InvalidPath,
        ),
        from.contains(Segment::Key(seq!['-'])) ==> {
            &&& fails_with(
                apply::apply_act(document, Act::Copy { from, path }),
                JsyncErrorKind::InvalidPath,
            )
            &&& fails_with(
                apply::apply_act(document, Act::Move { from, path }),
                JsyncErrorKind::InvalidPath,
            )
        },
        from != path && (from.len() == 0 || (path.len() > from.len() && path.take(
            from.len() as int,
        ) == from)) ==> fails_with(
            apply::apply_act(document, Act::Move { from, path }),
            JsyncErrorKind::InvalidPath,
        ),
{
    lemma_dashes(from, from.len());
    lemma_dash_kind(from, from.len());
}

proof fn lemma_dash_kind(from: Seq<Segment>, count: nat)
    ensures
        apply::from_path_error(from, count) matches Some(e) ==> e.kind
            == JsyncErrorKind::InvalidPath,
    decreases count,
{
    if 0 < count <= from.len() {
        lemma_dash_kind(from, (count - 1) as nat);
    }
}

/// MOVE from a path that leads nowhere fails as REMOVE there does.
pub proof fn law_moves_from_nowhere_fail_as_removals_do(
    document: Json,
    from: Seq<Segment>,
    path: Seq<Segment>,
)
    requires
        paths::counted(from),
        from.len() > 0,
        value_at(document, from) is None,
        from != path,
        !(path.len() > from.len() && path.take(from.len() as int) == from),
        !from.contains(Segment::Key(seq!['-'])),
    ensures
        alike(
            apply::apply_act(document, Act::Move { from, path }),
            apply::apply_act(document, Act::Remove { path: from }),
        ),
        apply::apply_act(document, Act::Move { from, path }) is Err,
{
    lemma_dashes(from, from.len());
    lemma_parent_counted(from);
    lemma_observed(document, from.drop_last(), 0, Step::Parent);
    lemma_parent(document, from, 0);
}

/// Text can be added to a string only, and edits can be made to a string or an array only. Edits
/// that are not acceptable are no valid value.
pub proof fn law_misdirected_edits_have_their_kinds(
    document: Json,
    path: Seq<Segment>,
    text: Seq<char>,
    texts: Seq<Edit<char>>,
    values: Seq<Edit<Json>>,
)
    requires
        paths::counted(path),
        json::in_memory(document),
        value_at(document, path) is Some,
    ensures
        ({
            let value = value_at(document, path)->0;
            &&& !(value is String) ==> {
                &&& fails_with(
                    apply::apply_act(document, Act::StringAppend { path, text }),
                    JsyncErrorKind::ApplyFailed,
                )
                &&& fails_with(
                    apply::apply_act(document, Act::StringPrepend { path, text }),
                    JsyncErrorKind::ApplyFailed,
                )
                &&& fails_with(
                    apply::apply_act(document, Act::StringPatch { path, edits: texts }),
                    JsyncErrorKind::ApplyFailed,
                )
            }
            &&& !(value is Array) ==> fails_with(
                apply::apply_act(document, Act::ArrayPatch { path, edits: values }),
                JsyncErrorKind::ApplyFailed,
            )
            &&& value matches Json::String(s) ==> !acceptable(texts, s.len() as int) ==> fails_with(
                apply::apply_act(document, Act::StringPatch { path, edits: texts }),
                JsyncErrorKind::InvalidJsonValue,
            )
            &&& value matches Json::Array(s) ==> !acceptable(values, s.len() as int) ==> fails_with(
                apply::apply_act(document, Act::ArrayPatch { path, edits: values }),
                JsyncErrorKind::InvalidJsonValue,
            )
        }),
{
    lemma_observed(document, path, 0, Step::Target);
    lemma_in_memory_value(document, path, 0);
    let value = value_at(document, path)->0;
    if let Json::String(s) = value {
        let words = apply::string_patch_wording();
        lemma_acceptable(texts, texts.len(), s.len() as int, words);
        lemma_patch_kind(texts, texts.len(), s.len() as int, words);
    }
    if let Json::Array(s) = value {
        let words = apply::array_patch_wording();
        lemma_acceptable(values, values.len(), s.len() as int, words);
        lemma_patch_kind(values, values.len(), s.len() as int, words);
    }
}

proof fn lemma_patch_kind<T>(
    edits: Seq<Edit<T>>,
    count: nat,
    length: int,
    words: PatchWording,
)
    ensures
        patch::first_edit_error(edits, count, length, words) matches Some(e) ==> e.kind
            == JsyncErrorKind::InvalidJsonValue,
    decreases count,
{
    if 0 < count <= edits.len() {
        lemma_patch_kind(edits, (count - 1) as nat, length, words);
    }
}

} // verus!
