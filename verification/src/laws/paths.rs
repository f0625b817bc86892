//! What holds of values at paths, and of actions that change them.

use vstd::prelude::*;

use crate::apply;
use crate::apply::Step;
use crate::consumer;
use crate::error::ErrorModel;
use crate::json::Json;
use crate::message::action::{Act, Segment};
use crate::string_map;

verus! {

/// Whether no index of a path is negative.
pub open spec fn counted(path: Seq<Segment>) -> bool {
    forall|i: int| 0 <= i < path.len() ==> (#[trigger] path[i] matches Segment::Index(n) ==> n >= 0)
}

/// Whether a value stands at a path, from its segment at `at` on.
pub open spec fn found_from(root: Json, path: Seq<Segment>, at: int, value: Json) -> bool {
    apply::resolve(root, path, at, Step::Target) == Ok::<Json, ErrorModel>(value)
}

/// Whether a value stands at a path.
pub open spec fn found(root: Json, path: Seq<Segment>, value: Json) -> bool {
    found_from(root, path, 0, value)
}

/// Where a value stands does not depend on what it is looked up for.
pub proof fn lemma_parent_found(root: Json, path: Seq<Segment>, at: int, value: Json)
    requires
        found_from(root, path, at, value),
    ensures
        apply::resolve(root, path, at, Step::Parent) == Ok::<Json, ErrorModel>(value),
    decreases path.len() - at,
{
    if at < path.len() {
        lemma_parent_found(apply::child(root, path[at]), path, at + 1, value);
    }
}

/// What has been put at a path stands there, and can be put there again.
pub proof fn lemma_put(root: Json, path: Seq<Segment>, at: int, old: Json, new: Json, newer: Json)
    requires
        0 <= at,
        counted(path),
        found_from(root, path, at, old),
    ensures
        found_from(apply::put(root, path, at, new), path, at, new),
        apply::put(apply::put(root, path, at, new), path, at, newer) == apply::put(
            root,
            path,
            at,
            newer,
        ),
    decreases path.len() - at,
{
    if at < path.len() {
        let part = apply::child(root, path[at]);
        let after = apply::put(part, path, at + 1, new);
        lemma_put(part, path, at + 1, old, new, newer);
        lemma_with_child(root, path[at], at, after, apply::put(part, path, at + 1, newer));
    }
}

/// Putting a part into a value.
proof fn lemma_with_child(value: Json, segment: Segment, at: int, part: Json, other: Json)
    requires
        apply::step_error(value, segment, at, Step::Target) is None,
        segment matches Segment::Index(n) ==> n >= 0,
    ensures
        ({
            let after = apply::with_child(value, segment, part);
            &&& apply::step_error(after, segment, at, Step::Target) is None
            &&& apply::child(after, segment) == part
            &&& apply::with_child(after, segment, other) == apply::with_child(
                value,
                segment,
                other,
            )
        }),
{
    match (value, segment) {
        (Json::Object(entries), Segment::Key(key)) => {
            let after = string_map::with_entry(entries, key, part);
            string_map::lemma_slot_range(entries, key);
            string_map::lemma_slot_keys(entries, after, key);
            assert(string_map::with_entry(after, key, other) =~= string_map::with_entry(
                entries,
                key,
                other,
            ));
        },
        (Json::Array(items), Segment::Index(index)) => {
            assert(items.update(index, part).update(index, other) =~= items.update(index, other));
        },
        _ => {},
    }
}

/// A longer path leads on from where the shorter one leads.
pub proof fn lemma_longer(root: Json, path: Seq<Segment>, at: int, segment: Segment, value: Json)
    requires
        0 <= at <= path.len(),
        found_from(root, path, at, value),
    ensures
        apply::step_error(value, segment, path.len() as int, Step::Target) is None
            ==> found_from(root, path.push(segment), at, apply::child(value, segment)),
        forall|part: Json| #[trigger]
            apply::put(root, path.push(segment), at, part) == apply::put(
                root,
                path,
                at,
                apply::with_child(value, segment, part),
            ),
    decreases path.len() - at,
{
    let longer = path.push(segment);
    if at < path.len() {
        assert(longer[at] == path[at]);
        let next = apply::child(root, path[at]);
        lemma_longer(next, path, at + 1, segment, value);
        assert forall|part: Json| #[trigger]
            apply::put(root, longer, at, part) == apply::put(
            root,
            path,
            at,
            apply::with_child(value, segment, part),
        ) by {
            assert(apply::put(next, longer, at + 1, part) == apply::put(
                next,
                path,
                at + 1,
                apply::with_child(value, segment, part),
            ));
        }
    } else {
        let end = at + 1;
        assert(longer[at] == segment);
        assert(found_from(
            apply::child(value, segment),
            longer,
            end,
            apply::child(value, segment),
        ));
        assert forall|part: Json| #[trigger]
            apply::put(root, longer, at, part) == apply::put(
            root,
            path,
            at,
            apply::with_child(value, segment, part),
        ) by {
            assert(apply::put(apply::child(root, segment), longer, end, part) == part);
        }
    }
}

/// Where a longer path leads from.
pub proof fn lemma_shorter(root: Json, path: Seq<Segment>, at: int, segment: Segment, value: Json)
    requires
        0 <= at <= path.len(),
        found_from(root, path.push(segment), at, value),
    ensures
        ({
            let parent = apply::resolve(root, path, at, Step::Target);
            &&& parent is Ok
            &&& apply::step_error(parent->Ok_0, segment, path.len() as int, Step::Target) is None
            &&& value == apply::child(parent->Ok_0, segment)
        }),
    decreases path.len() - at,
{
    let longer = path.push(segment);
    if at < path.len() {
        assert(longer[at] == path[at]);
        lemma_shorter(apply::child(root, path[at]), path, at + 1, segment, value);
    } else {
        assert(longer[at] == segment);
        let part = apply::child(root, segment);
        assert(found_from(part, longer, at + 1, part));
    }
}

/// Whether actions lead from one document to another.
#[verifier::opaque]
pub open spec fn leads(from: Json, acts: Seq<Act>, to: Json) -> bool {
    consumer::run(from, acts, acts.len()) == Ok::<Json, ErrorModel>(to)
}

/// Which actions follow does not matter for what the first ones do.
proof fn lemma_run_prefix(document: Json, a: Seq<Act>, b: Seq<Act>, count: nat)
    requires
        count <= a.len(),
        count <= b.len(),
        forall|i: int| 0 <= i < count ==> a[i] == b[i],
    ensures
        consumer::run(document, a, count) == consumer::run(document, b, count),
    decreases count,
{
    if count > 0 {
        lemma_run_prefix(document, a, b, (count - 1) as nat);
    }
}

/// Actions lead on from where others lead.
pub proof fn lemma_leads_on(from: Json, a: Seq<Act>, between: Json, b: Seq<Act>, to: Json)
    requires
        leads(from, a, between),
        leads(between, b, to),
    ensures
        leads(from, a + b, to),
    decreases b.len(),
{
    reveal(leads);
    if b.len() == 0 {
        assert(a + b =~= a);
    } else {
        let start = b.drop_last();
        let count = start.len();
        lemma_run_prefix(between, b, start, count);
        let middle = consumer::run(between, start, count)->Ok_0;
        lemma_leads_on(from, a, between, start, middle);
        lemma_run_prefix(from, a + b, a + start, (a + start).len());
        assert((a + b)[(a + b).len() - 1] == b.last());
    }
}

/// One action leads where applying it does.
pub proof fn lemma_leads_one(from: Json, act: Act, to: Json)
    requires
        apply::apply_act(from, act) == Ok::<Json, ErrorModel>(to),
    ensures
        leads(from, seq![act], to),
{
    reveal(leads);
    let acts = seq![act];
    assert(consumer::run(from, acts, 0) == Ok::<Json, ErrorModel>(from));
    assert(acts[0] == act);
    assert(consumer::run(from, acts, 1) == Ok::<Json, ErrorModel>(to));
}

/// No action leads nowhere.
pub proof fn lemma_leads_nowhere(from: Json)
    ensures
        leads(from, Seq::empty(), from),
{
    reveal(leads);
}

/// What adding a part to the value at a path does.
pub proof fn lemma_add_part(
    root: Json,
    path: Seq<Segment>,
    value: Json,
    segment: Segment,
    part: Json,
)
    requires
        found(root, path, value),
        apply::step_error(value, segment, path.len() as int, Step::Add) is None,
    ensures
        apply::add_at(root, path.push(segment), part) == Ok::<Json, ErrorModel>(
            apply::put(root, path, 0, apply::add_to(value, segment, part)),
        ),
{
    lemma_parent_found(root, path, 0, value);
    assert(path.push(segment).drop_last() =~= path);
}

/// What removing a part of the value at a path does.
pub proof fn lemma_remove_part(root: Json, path: Seq<Segment>, value: Json, segment: Segment)
    requires
        found(root, path, value),
        apply::step_error(value, segment, path.len() as int, Step::Remove) is None,
    ensures
        apply::remove_at(root, path.push(segment)) == Ok::<Json, ErrorModel>(
            apply::put(root, path, 0, apply::remove_from(value, segment)),
        ),
{
    lemma_parent_found(root, path, 0, value);
    assert(path.push(segment).drop_last() =~= path);
}

/// What replacing the value at a path does.
pub proof fn lemma_replace(root: Json, path: Seq<Segment>, old: Json, new: Json)
    requires
        found(root, path, old),
    ensures
        apply::replace_at(root, path, new) == Ok::<Json, ErrorModel>(
            apply::put(root, path, 0, new),
        ),
{
    if path.len() > 0 {
        let front = path.drop_last();
        let last = path.last();
        assert(front.push(last) =~= path);
        lemma_shorter(root, front, 0, last, old);
        let parent = apply::resolve(root, front, 0, Step::Target)->Ok_0;
        lemma_parent_found(root, front, 0, parent);
        lemma_longer(root, front, 0, last, parent);
        assert(apply::put(root, path, 0, new) == apply::put(
            root,
            front,
            0,
            apply::with_child(parent, last, new),
        ));
    }
}

/// Whether a path may be one from which a value is copied or moved.
pub open spec fn dash_free(path: Seq<Segment>) -> bool {
    forall|i: int| 0 <= i < path.len() ==> #[trigger] path[i] != Segment::Key("-"@)
}

proof fn lemma_dash_free(path: Seq<Segment>, count: nat)
    requires
        count <= path.len(),
        dash_free(path),
    ensures
        apply::from_path_error(path, count) is None,
    decreases count,
{
    if count > 0 {
        lemma_dash_free(path, (count - 1) as nat);
        assert(path[count - 1] != Segment::Key("-"@));
    }
}

/// What copying one part of the value at a path to another one does.
pub proof fn lemma_copy_part(
    root: Json,
    path: Seq<Segment>,
    value: Json,
    source: Segment,
    target: Segment,
)
    requires
        found(root, path, value),
        dash_free(path.push(source)),
        apply::step_error(value, source, path.len() as int, Step::Target) is None,
        apply::step_error(value, target, path.len() as int, Step::Add) is None,
    ensures
        apply::copy_at(root, path.push(source), path.push(target)) == Ok::<Json, ErrorModel>(
            apply::put(root, path, 0, apply::add_to(value, target, apply::child(value, source))),
        ),
{
    lemma_dash_free(path.push(source), path.push(source).len());
    lemma_longer(root, path, 0, source, value);
    lemma_add_part(root, path, value, target, apply::child(value, source));
}

/// What moving one part of the value at a path to another one does.
pub proof fn lemma_move_part(
    root: Json,
    path: Seq<Segment>,
    value: Json,
    source: Segment,
    target: Segment,
)
    requires
        counted(path),
        found(root, path, value),
        dash_free(path.push(source)),
        source != target,
        apply::step_error(value, source, path.len() as int, Step::Move) is None,
        apply::step_error(
            apply::remove_from(value, source),
            target,
            path.len() as int,
            Step::Add,
        ) is None,
    ensures
        apply::move_at(root, path.push(source), path.push(target)) == Ok::<Json, ErrorModel>(
            apply::put(
                root,
                path,
                0,
                apply::add_to(
                    apply::remove_from(value, source),
                    target,
                    apply::child(value, source),
                ),
            ),
        ),
{
    let from = path.push(source);
    let to = path.push(target);
    let part = apply::child(value, source);
    let rest = apply::remove_from(value, source);
    let after = apply::put(root, path, 0, rest);
    lemma_dash_free(from, from.len());
    assert(from.last() != to.last());
    lemma_parent_found(root, path, 0, value);
    assert(from.drop_last() =~= path);
    lemma_put(root, path, 0, value, rest, apply::add_to(rest, target, part));
    lemma_add_part(after, path, rest, target, part);
}

/// Removing an item of the array at a path.
pub proof fn lemma_remove_item(root: Json, path: Seq<Segment>, items: Seq<Json>, index: int)
    requires
        found(root, path, Json::Array(items)),
        0 <= index < items.len(),
    ensures
        leads(
            root,
            seq![Act::Remove { path: path.push(Segment::Index(index)) }],
            apply::put(root, path, 0, Json::Array(items.remove(index))),
        ),
{
    let segment = Segment::Index(index);
    lemma_remove_part(root, path, Json::Array(items), segment);
    lemma_leads_one(
        root,
        Act::Remove { path: path.push(segment) },
        apply::put(root, path, 0, Json::Array(items.remove(index))),
    );
}

/// Adding an item to the array at a path.
pub proof fn lemma_add_item(
    root: Json,
    path: Seq<Segment>,
    items: Seq<Json>,
    index: int,
    value: Json,
)
    requires
        found(root, path, Json::Array(items)),
        0 <= index <= items.len(),
    ensures
        leads(
            root,
            seq![Act::Add { path: path.push(Segment::Index(index)), value }],
            apply::put(root, path, 0, Json::Array(items.insert(index, value))),
        ),
{
    let segment = Segment::Index(index);
    lemma_add_part(root, path, Json::Array(items), segment, value);
    lemma_leads_one(
        root,
        Act::Add { path: path.push(segment), value },
        apply::put(root, path, 0, Json::Array(items.insert(index, value))),
    );
}

/// Removing a property of the object at a path.
pub proof fn lemma_remove_property(
    root: Json,
    path: Seq<Segment>,
    entries: Seq<(Seq<char>, Json)>,
    key: Seq<char>,
)
    requires
        found(root, path, Json::Object(entries)),
        string_map::has_key(entries, key),
    ensures
        leads(
            root,
            seq![Act::Remove { path: path.push(Segment::Key(key)) }],
            apply::put(root, path, 0, Json::Object(string_map::without_key(entries, key))),
        ),
{
    let segment = Segment::Key(key);
    lemma_remove_part(root, path, Json::Object(entries), segment);
    lemma_leads_one(
        root,
        Act::Remove { path: path.push(segment) },
        apply::put(root, path, 0, Json::Object(string_map::without_key(entries, key))),
    );
}

/// Adding a property to the object at a path.
pub proof fn lemma_add_property(
    root: Json,
    path: Seq<Segment>,
    entries: Seq<(Seq<char>, Json)>,
    key: Seq<char>,
    value: Json,
)
    requires
        found(root, path, Json::Object(entries)),
    ensures
        leads(
            root,
            seq![Act::Add { path: path.push(Segment::Key(key)), value }],
            apply::put(root, path, 0, Json::Object(string_map::with_entry(entries, key, value))),
        ),
{
    let segment = Segment::Key(key);
    lemma_add_part(root, path, Json::Object(entries), segment, value);
    lemma_leads_one(
        root,
        Act::Add { path: path.push(segment), value },
        apply::put(root, path, 0, Json::Object(string_map::with_entry(entries, key, value))),
    );
}

/// Copying a property of the object at a path.
pub proof fn lemma_copy_property(
    root: Json,
    path: Seq<Segment>,
    entries: Seq<(Seq<char>, Json)>,
    source: Seq<char>,
    target: Seq<char>,
)
    requires
        found(root, path, Json::Object(entries)),
        dash_free(path.push(Segment::Key(source))),
        string_map::has_key(entries, source),
    ensures
        leads(
            root,
            seq![
                Act::Copy {
                    from: path.push(Segment::Key(source)),
                    path: path.push(Segment::Key(target)),
                },
            ],
            apply::put(
                root,
                path,
                0,
                Json::Object(
                    string_map::with_entry(
                        entries,
                        target,
                        string_map::lookup(entries, source),
                    ),
                ),
            ),
        ),
{
    let from = Segment::Key(source);
    let to = Segment::Key(target);
    lemma_copy_part(root, path, Json::Object(entries), from, to);
    lemma_leads_one(
        root,
        Act::Copy { from: path.push(from), path: path.push(to) },
        apply::put(
            root,
            path,
            0,
            Json::Object(
                string_map::with_entry(entries, target, string_map::lookup(entries, source)),
            ),
        ),
    );
}

/// Moving a property of the object at a path.
pub proof fn lemma_move_property(
    root: Json,
    path: Seq<Segment>,
    entries: Seq<(Seq<char>, Json)>,
    source: Seq<char>,
    target: Seq<char>,
)
    requires
        counted(path),
        found(root, path, Json::Object(entries)),
        dash_free(path.push(Segment::Key(source))),
        source != target,
        string_map::has_key(entries, source),
    ensures
        leads(
            root,
            seq![
                Act::Move {
                    from: path.push(Segment::Key(source)),
                    path: path.push(Segment::Key(target)),
                },
            ],
            apply::put(
                root,
                path,
                0,
                Json::Object(
                    string_map::with_entry(
                        string_map::without_key(entries, source),
                        target,
                        string_map::lookup(entries, source),
                    ),
                ),
            ),
        ),
{
    let from = Segment::Key(source);
    let to = Segment::Key(target);
    lemma_move_part(root, path, Json::Object(entries), from, to);
    lemma_leads_one(
        root,
        Act::Move { from: path.push(from), path: path.push(to) },
        apply::put(
            root,
            path,
            0,
            Json::Object(
                string_map::with_entry(
                    string_map::without_key(entries, source),
                    target,
                    string_map::lookup(entries, source),
                ),
            ),
        ),
    );
}

} // verus!
