//! Plans send no more than what has changed.

use vstd::prelude::*;

use crate::apply;
use crate::apply::Step;
use crate::error::ErrorModel;
use crate::json;
use crate::json::Json;
use crate::laws::actions;
use crate::laws::paths;
use crate::laws::upkeep;
use crate::message::action::{Act, Edit, Segment};
use crate::producer::arrays;
use crate::producer::cost;
use crate::producer::diff;
use crate::producer::digest;
use crate::producer::hunks;
use crate::producer::myers;
use crate::producer::myers::Problem;
use crate::producer::objects;
use crate::producer::sequences;
use crate::producer::strings;
use crate::string_map;

verus! {

/// A value is replaced whole only where that costs less than changing its parts: the plan for two
/// objects, or two arrays, never costs more than the plan that changes their properties or items,
/// and is that plan unless replacing is strictly cheaper. This holds at every path.
pub proof fn law_plan_costs_no_more_than_changing_parts(
    from: Json,
    to: Json,
    path: Seq<Segment>,
    pool: Seq<Segment>,
    patches: bool,
)
    ensures
        ({
            let plan = diff::diff(from, to, path, pool, patches);
            let replace = seq![Act::Replace { path, value: to }];
            match (from, to) {
                (Json::Object(old), Json::Object(new)) => {
                    let parts = diff::object_acts(old, new, path, pool, patches);
                    &&& cost::plan_cost(plan, pool) <= cost::plan_cost(parts, pool)
                    &&& !json::same(from, to) ==> plan == parts || (plan == replace
                        && cost::plan_cost(replace, pool) < cost::plan_cost(parts, pool))
                },
                (Json::Array(old), Json::Array(new)) => {
                    let parts = diff::itemwise_acts(old, new, path, pool, patches);
                    &&& cost::plan_cost(plan, pool) <= cost::plan_cost(parts, pool)
                    &&& plan == replace ==> plan == parts || cost::plan_cost(replace, pool)
                        < cost::plan_cost(parts, pool)
                },
                _ => true,
            }
        }),
{
}

/// Nothing is done to the first items of arrays that are the same there.
proof fn lemma_no_item_acts(
    old: Seq<Json>,
    new: Seq<Json>,
    path: Seq<Segment>,
    pool: Seq<Segment>,
    patches: bool,
    count: nat,
)
    requires
        count <= old.len(),
        count <= new.len(),
        forall|i: int| 0 <= i < count ==> json::same(#[trigger] old[i], new[i]),
    ensures
        diff::item_acts(old, new, path, pool, patches, count) == Seq::<Act>::empty(),
    decreases count,
{
    if count > 0 {
        lemma_no_item_acts(old, new, path, pool, patches, (count - 1) as nat);
        assert(json::same(old[count - 1], new[count - 1]));
        let child = diff::element(path, count - 1);
        assert(diff::diff(old[count - 1], new[count - 1], child, pool, patches) == Seq::<
            Act,
        >::empty());
        assert(diff::item_acts(old, new, path, pool, patches, count) =~= Seq::<Act>::empty());
    }
}

/// What is done to arrays of which one item differs.
proof fn lemma_one_item_acts(
    old: Seq<Json>,
    new: Seq<Json>,
    path: Seq<Segment>,
    pool: Seq<Segment>,
    patches: bool,
    count: nat,
    at: int,
)
    requires
        0 <= at < count <= old.len(),
        count <= new.len(),
        forall|i: int| 0 <= i < count && i != at ==> json::same(#[trigger] old[i], new[i]),
    ensures
        diff::item_acts(old, new, path, pool, patches, count) == diff::diff(
            old[at],
            new[at],
            diff::element(path, at),
            pool,
            patches,
        ),
    decreases count,
{
    let last = count - 1;
    let child = diff::element(path, last);
    let acts = diff::diff(old[last], new[last], child, pool, patches);
    let before = diff::item_acts(old, new, path, pool, patches, last as nat);
    assert(diff::item_acts(old, new, path, pool, patches, count) == before + acts);
    if last == at {
        lemma_no_item_acts(old, new, path, pool, patches, last as nat);
        assert(before + acts =~= acts);
    } else {
        lemma_one_item_acts(old, new, path, pool, patches, last as nat, at);
        assert(json::same(old[last], new[last]));
        assert(acts == Seq::<Act>::empty());
        assert(before + acts =~= before);
    }
}

/// Where only one item of an array changes, changing the array is changing that item.
pub proof fn law_one_changed_item_is_changed_by_itself(
    old: Seq<Json>,
    new: Seq<Json>,
    at: int,
    path: Seq<Segment>,
    pool: Seq<Segment>,
    patches: bool,
)
    requires
        old.len() == new.len(),
        0 <= at < old.len(),
        forall|i: int| 0 <= i < old.len() && i != at ==> json::same(#[trigger] old[i], new[i]),
    ensures
        diff::itemwise_acts(old, new, path, pool, patches) == diff::diff(
            old[at],
            new[at],
            path.push(Segment::Index(at)),
            pool,
            patches,
        ),
{
    lemma_one_item_acts(old, new, path, pool, patches, old.len(), at);
    let acts = diff::item_acts(old, new, path, pool, patches, old.len());
    assert(diff::itemwise_acts(old, new, path, pool, patches) =~= acts);
}

/// Where an array only loses items at its end, they are removed one by one, the last one first.
pub proof fn law_lost_items_are_removed(
    old: Seq<Json>,
    new: Seq<Json>,
    path: Seq<Segment>,
    pool: Seq<Segment>,
    patches: bool,
)
    requires
        new.len() <= old.len(),
        forall|i: int| 0 <= i < new.len() ==> json::same(#[trigger] old[i], new[i]),
    ensures
        ({
            let acts = diff::itemwise_acts(old, new, path, pool, patches);
            &&& acts.len() == old.len() - new.len()
            &&& forall|i: int|
                0 <= i < acts.len() ==> #[trigger] acts[i] == (Act::Remove {
                    path: path.push(Segment::Index(old.len() - 1 - i)),
                })
        }),
{
    lemma_no_item_acts(old, new, path, pool, patches, new.len());
}

/// Where an array only gains items at its end, they are added one by one.
pub proof fn law_gained_items_are_added(
    old: Seq<Json>,
    new: Seq<Json>,
    path: Seq<Segment>,
    pool: Seq<Segment>,
    patches: bool,
)
    requires
        old.len() <= new.len(),
        forall|i: int| 0 <= i < old.len() ==> json::same(#[trigger] old[i], new[i]),
    ensures
        ({
            let acts = diff::itemwise_acts(old, new, path, pool, patches);
            &&& acts.len() == new.len() - old.len()
            &&& forall|i: int|
                0 <= i < acts.len() ==> #[trigger] acts[i] == (Act::Add {
                    path: path.push(Segment::Index(old.len() + i)),
                    value: new[old.len() + i],
                })
        }),
{
    lemma_no_item_acts(old, new, path, pool, patches, old.len());
}

/// Without array patches, an array under a key of the root that loses or gains items at its end
/// only is changed item by item, and a root that holds one is not replaced.
pub proof fn law_end_changes_under_the_root_are_made_item_by_item(
    old: Seq<(Seq<char>, Json)>,
    new: Seq<(Seq<char>, Json)>,
    key: Seq<char>,
    pool: Seq<Segment>,
)
    requires
        string_map::sorted(old),
        string_map::value_of(old, key) matches Some(Json::Array(_)),
        string_map::value_of(new, key) matches Some(Json::Array(_)),
        ({
            let a = string_map::value_of(old, key)->0->Array_0;
            let b = string_map::value_of(new, key)->0->Array_0;
            &&& a.len() != b.len()
            &&& forall|i: int|
                0 <= i < a.len() && i < b.len() ==> json::same(#[trigger] a[i], b[i])
        }),
    ensures
        ({
            let a = string_map::value_of(old, key)->0->Array_0;
            let b = string_map::value_of(new, key)->0->Array_0;
            let child = seq![Segment::Key(key)];
            &&& diff::diff(Json::Array(a), Json::Array(b), child, pool, false)
                == diff::itemwise_acts(a, b, child, pool, false)
            &&& !json::same(Json::Object(old), Json::Object(new)) ==> diff::diff(
                Json::Object(old),
                Json::Object(new),
                Seq::empty(),
                pool,
                false,
            ) == diff::object_acts(old, new, Seq::empty(), pool, false)
        }),
{
    let a = string_map::value_of(old, key)->0->Array_0;
    let b = string_map::value_of(new, key)->0->Array_0;
    json::lemma_same_arrays(a, b);
    assert(diff::only_end_differs(Json::Array(a), Json::Array(b)));
    string_map::lemma_slot_range(old, key);
    let at = string_map::slot(old, key);
    assert(old[at].0 == key && old[at].1 == Json::Array(a));
    assert(diff::only_end_differs(old[at].1, string_map::lookup(new, old[at].0)));
    assert(diff::has_end_change(old, new));
}

/// Objects with the same keys have none to move, remove, copy or add.
proof fn lemma_same_keys(
    old: Seq<(Seq<char>, Json)>,
    new: Seq<(Seq<char>, Json)>,
    path: Seq<Segment>,
    pool: Seq<Segment>,
    patches: bool,
)
    requires
        string_map::sorted(old),
        string_map::sorted(new),
        old.len() == new.len(),
        forall|i: int| 0 <= i < old.len() ==> (#[trigger] old[i]).0 == new[i].0,
    ensures
        diff::object_acts(old, new, path, pool, patches) == diff::entry_acts(
            old,
            new,
            path,
            pool,
            patches,
            old.len(),
        ),
{
    assert forall|i: int| 0 <= i < old.len() implies (#[trigger] old[i]).0 == (
    #[trigger] new[i]).0 by {}
    let removed = objects::removed_keys(old, new);
    let added = objects::added_keys(old, new);
    objects::lemma_selected(old, objects::occurring(new, false), old.len());
    objects::lemma_selected(new, objects::occurring(old, false), new.len());
    if removed.len() > 0 {
        assert(removed.contains(removed[0]));
        string_map::lemma_slot_keys(old, new, removed[0]);
    }
    if added.len() > 0 {
        assert(added.contains(added[0]));
        string_map::lemma_slot_keys(old, new, added[0]);
    }
    let entries = diff::entry_acts(old, new, path, pool, patches, old.len());
    assert(diff::object_acts(old, new, path, pool, patches) =~= entries);
}

/// What is done under one more key.
proof fn lemma_entry_step(
    old: Seq<(Seq<char>, Json)>,
    new: Seq<(Seq<char>, Json)>,
    path: Seq<Segment>,
    pool: Seq<Segment>,
    patches: bool,
    at: int,
)
    requires
        string_map::sorted(new),
        0 <= at < old.len(),
        at < new.len(),
        old[at].0 == new[at].0,
    ensures
        diff::entry_acts(old, new, path, pool, patches, (at + 1) as nat) == diff::entry_acts(
            old,
            new,
            path,
            pool,
            patches,
            at as nat,
        ) + diff::diff(
            old[at].1,
            new[at].1,
            path.push(Segment::Key(old[at].0)),
            pool,
            patches,
        ),
{
    string_map::lemma_slot_of(new, at);
}

proof fn lemma_no_entry_acts(
    old: Seq<(Seq<char>, Json)>,
    new: Seq<(Seq<char>, Json)>,
    path: Seq<Segment>,
    pool: Seq<Segment>,
    patches: bool,
    count: nat,
)
    requires
        string_map::sorted(new),
        count <= old.len(),
        count <= new.len(),
        forall|i: int|
            0 <= i < count ==> (#[trigger] old[i]).0 == new[i].0 && json::same(old[i].1, new[i].1),
    ensures
        diff::entry_acts(old, new, path, pool, patches, count) == Seq::<Act>::empty(),
    decreases count,
{
    if count > 0 {
        let at = count - 1;
        lemma_no_entry_acts(old, new, path, pool, patches, at as nat);
        assert(old[at].0 == new[at].0 && json::same(old[at].1, new[at].1));
        lemma_entry_step(old, new, path, pool, patches, at);
        let child = path.push(Segment::Key(old[at].0));
        assert(diff::diff(old[at].1, new[at].1, child, pool, patches) == Seq::<Act>::empty());
        assert(diff::entry_acts(old, new, path, pool, patches, count) =~= Seq::<Act>::empty());
    }
}

proof fn lemma_one_entry_acts(
    old: Seq<(Seq<char>, Json)>,
    new: Seq<(Seq<char>, Json)>,
    path: Seq<Segment>,
    pool: Seq<Segment>,
    patches: bool,
    count: nat,
    at: int,
)
    requires
        string_map::sorted(new),
        0 <= at < count <= old.len(),
        count <= new.len(),
        forall|i: int| 0 <= i < count ==> (#[trigger] old[i]).0 == new[i].0,
        forall|i: int| 0 <= i < count && i != at ==> json::same((#[trigger] old[i]).1, new[i].1),
    ensures
        diff::entry_acts(old, new, path, pool, patches, count) == diff::diff(
            old[at].1,
            new[at].1,
            path.push(Segment::Key(old[at].0)),
            pool,
            patches,
        ),
    decreases count,
{
    let last = count - 1;
    let child = path.push(Segment::Key(old[last].0));
    let acts = diff::diff(old[last].1, new[last].1, child, pool, patches);
    let before = diff::entry_acts(old, new, path, pool, patches, last as nat);
    assert(old[last].0 == new[last].0);
    lemma_entry_step(old, new, path, pool, patches, last);
    if last == at {
        assert forall|i: int| 0 <= i < last implies (#[trigger] old[i]).0 == new[i].0
            && json::same(old[i].1, new[i].1) by {}
        lemma_no_entry_acts(old, new, path, pool, patches, last as nat);
        assert(before + acts =~= acts);
    } else {
        lemma_one_entry_acts(old, new, path, pool, patches, last as nat, at);
        assert(json::same(old[last].1, new[last].1));
        assert(acts == Seq::<Act>::empty());
        assert(before + acts =~= before);
    }
}

/// Where only one property of an object changes, changing the object is changing that property.
pub proof fn law_one_changed_property_is_changed_by_itself(
    old: Seq<(Seq<char>, Json)>,
    new: Seq<(Seq<char>, Json)>,
    at: int,
    path: Seq<Segment>,
    pool: Seq<Segment>,
    patches: bool,
)
    requires
        string_map::sorted(old),
        string_map::sorted(new),
        old.len() == new.len(),
        0 <= at < old.len(),
        forall|i: int| 0 <= i < old.len() ==> (#[trigger] old[i]).0 == new[i].0,
        forall|i: int|
            0 <= i < old.len() && i != at ==> json::same((#[trigger] old[i]).1, new[i].1),
    ensures
        diff::object_acts(old, new, path, pool, patches) == diff::diff(
            old[at].1,
            new[at].1,
            path.push(Segment::Key(old[at].0)),
            pool,
            patches,
        ),
{
    lemma_same_keys(old, new, path, pool, patches);
    lemma_one_entry_acts(old, new, path, pool, patches, old.len(), at);
}

/// Changes of different properties are planned independently: changing the first properties and
/// then the others takes the same actions as changing all at once.
pub proof fn law_properties_are_changed_independently(
    old: Seq<(Seq<char>, Json)>,
    between: Seq<(Seq<char>, Json)>,
    new: Seq<(Seq<char>, Json)>,
    at: int,
    path: Seq<Segment>,
    pool: Seq<Segment>,
    patches: bool,
)
    requires
        string_map::sorted(old),
        string_map::sorted(between),
        string_map::sorted(new),
        old.len() == between.len() == new.len(),
        0 <= at <= old.len(),
        forall|i: int|
            0 <= i < old.len() ==> (#[trigger] old[i]).0 == new[i].0 && between[i].0 == new[i].0,
        forall|i: int| 0 <= i < at ==> (#[trigger] between[i]).1 == new[i].1,
        forall|i: int| at <= i < old.len() ==> (#[trigger] between[i]).1 == old[i].1,
    ensures
        diff::object_acts(old, new, path, pool, patches) == diff::object_acts(
            old,
            between,
            path,
            pool,
            patches,
        ) + diff::object_acts(between, new, path, pool, patches),
{
    assert forall|i: int| 0 <= i < old.len() implies (#[trigger] old[i]).0 == between[i].0 by {}
    assert forall|i: int| 0 <= i < old.len() implies (#[trigger] between[i]).0 == new[i].0 by {
        assert(old[i].0 == new[i].0);
    }
    lemma_same_keys(old, new, path, pool, patches);
    lemma_same_keys(old, between, path, pool, patches);
    lemma_same_keys(between, new, path, pool, patches);
    lemma_independent(old, between, new, at, path, pool, patches, old.len());
}

proof fn lemma_independent(
    old: Seq<(Seq<char>, Json)>,
    between: Seq<(Seq<char>, Json)>,
    new: Seq<(Seq<char>, Json)>,
    at: int,
    path: Seq<Segment>,
    pool: Seq<Segment>,
    patches: bool,
    count: nat,
)
    requires
        string_map::sorted(old),
        string_map::sorted(between),
        string_map::sorted(new),
        old.len() == between.len() == new.len(),
        0 <= at <= old.len(),
        count <= old.len(),
        forall|i: int|
            0 <= i < old.len() ==> (#[trigger] old[i]).0 == new[i].0 && between[i].0 == new[i].0,
        forall|i: int| 0 <= i < at ==> (#[trigger] between[i]).1 == new[i].1,
        forall|i: int| at <= i < old.len() ==> (#[trigger] between[i]).1 == old[i].1,
    ensures
        diff::entry_acts(old, new, path, pool, patches, count) == diff::entry_acts(
            old,
            between,
            path,
            pool,
            patches,
            count,
        ) + diff::entry_acts(between, new, path, pool, patches, count),
        count <= at ==> diff::entry_acts(between, new, path, pool, patches, count) == Seq::<
            Act,
        >::empty(),
    decreases count,
{
    let a = diff::entry_acts(old, between, path, pool, patches, count);
    let b = diff::entry_acts(between, new, path, pool, patches, count);
    let all = diff::entry_acts(old, new, path, pool, patches, count);
    if count > 0 {
        let i = count - 1;
        lemma_independent(old, between, new, at, path, pool, patches, i as nat);
        assert(old[i].0 == new[i].0 && between[i].0 == new[i].0);
        lemma_entry_step(old, new, path, pool, patches, i);
        lemma_entry_step(old, between, path, pool, patches, i);
        lemma_entry_step(between, new, path, pool, patches, i);
        let child = path.push(Segment::Key(old[i].0));
        if i < at {
            assert(between[i].1 == new[i].1);
            assert(diff::diff(between[i].1, new[i].1, child, pool, patches) == Seq::<
                Act,
            >::empty());
            assert(b =~= Seq::<Act>::empty());
        } else {
            assert(between[i].1 == old[i].1);
            assert(diff::diff(old[i].1, between[i].1, child, pool, patches) == Seq::<
                Act,
            >::empty());
        }
    }
    assert(all =~= a + b);
}

/// A change deep inside a document costs no more than planning it where it is made.
proof fn lemma_deep_change(
    from: Json,
    path: Seq<Segment>,
    at: int,
    value: Json,
    pool: Seq<Segment>,
    patches: bool,
)
    requires
        json::valid(from),
        0 <= at <= path.len(),
        actions::value_from(from, path, at) is Some,
    ensures
        cost::plan_cost(
            diff::diff(
                from,
                apply::put(from, path, at, value),
                path.take(at),
                pool,
                patches,
            ),
            pool,
        ) <= cost::plan_cost(
            diff::diff(actions::value_from(from, path, at)->0, value, path, pool, patches),
            pool,
        ),
    decreases path.len() - at,
{
    let to = apply::put(from, path, at, value);
    let here = path.take(at);
    if at == path.len() {
        assert(here =~= path);
    } else {
        let inner = actions::part(from, path[at])->0;
        let changed = apply::put(inner, path, at + 1, value);
        assert(inner == apply::child(from, path[at]));
        assert(here.push(path[at]) =~= path.take(at + 1));
        actions::lemma_valid_part(from, path[at]);
        lemma_deep_change(inner, path, at + 1, value, pool, patches);
        law_plan_costs_no_more_than_changing_parts(from, to, here, pool, patches);
        match (from, path[at]) {
            (Json::Object(old), Segment::Key(key)) => {
                string_map::lemma_slot_range(old, key);
                let i = string_map::slot(old, key);
                let new = old.update(i, (key, changed));
                assert(to == Json::Object(new));
                string_map::lemma_with_entry_sorted(old, key, changed);
                law_one_changed_property_is_changed_by_itself(
                    old,
                    new,
                    i,
                    here,
                    pool,
                    patches,
                );
            },
            (Json::Array(old), Segment::Index(i)) => {
                let new = old.update(i, changed);
                assert(to == Json::Array(new));
                law_one_changed_item_is_changed_by_itself(old, new, i, here, pool, patches);
            },
            _ => {},
        }
    }
}

/// Where one REPLACE turns a document into another one, the plan costs no more than that REPLACE,
/// however deep it reaches. Arrays under a key of the root that only lose or gain items at their
/// end are left out: they are changed item by item.
pub proof fn law_plan_costs_no_more_than_one_replacement(
    from: Json,
    to: Json,
    path: Seq<Segment>,
    value: Json,
    pool: Seq<Segment>,
    patches: bool,
)
    requires
        json::valid(from),
        paths::counted(path),
        apply::apply_act(from, Act::Replace { path, value }) == Ok::<Json, ErrorModel>(to),
        actions::value_at(from, path) matches Some(old) ==> !diff::in_parts(
            old,
            value,
            path,
            patches,
        ),
    ensures
        cost::plan_cost(diff::diff(from, to, Seq::empty(), pool, patches), pool)
            <= cost::plan_cost(seq![Act::Replace { path, value }], pool),
{
    actions::law_replace_changes_the_value_at_its_path(from, path, value);
    actions::lemma_replaced(from, path, value);
    lemma_deep_change(from, path, 0, value, pool, patches);
    assert(path.take(0) =~= Seq::<Segment>::empty());
}

/// Where text has been put at one end of a string, the plan costs no more than the APPEND or
/// PREPEND of that text, however deep the string stands.
pub proof fn law_plan_costs_no_more_than_adding_text(
    from: Json,
    path: Seq<Segment>,
    text: Seq<char>,
    pool: Seq<Segment>,
    patches: bool,
)
    requires
        json::valid(from),
        paths::counted(path),
        actions::value_at(from, path) matches Some(Json::String(_)),
    ensures
        ({
            let append = Act::StringAppend { path, text };
            apply::apply_act(from, append) matches Ok(to) && cost::plan_cost(
                diff::diff(from, to, Seq::empty(), pool, patches),
                pool,
            ) <= cost::plan_cost(seq![append], pool)
        }),
        ({
            let prepend = Act::StringPrepend { path, text };
            apply::apply_act(from, prepend) matches Ok(to) && cost::plan_cost(
                diff::diff(from, to, Seq::empty(), pool, patches),
                pool,
            ) <= cost::plan_cost(seq![prepend], pool)
        }),
{
    let old = actions::value_at(from, path)->0->String_0;
    let after = old + text;
    let before = text + old;
    actions::law_texts_are_added_at_the_ends(from, path, text);
    actions::lemma_replaced(from, path, Json::String(after));
    actions::lemma_replaced(from, path, Json::String(before));
    assert(path.take(0) =~= Seq::<Segment>::empty());
    lemma_deep_change(from, path, 0, Json::String(after), pool, patches);
    lemma_deep_change(from, path, 0, Json::String(before), pool, patches);
    lemma_appended(old, text, path, pool, patches);
    lemma_prepended(old, text, path, pool, patches);
}

proof fn lemma_appended(
    old: Seq<char>,
    text: Seq<char>,
    path: Seq<Segment>,
    pool: Seq<Segment>,
    patches: bool,
)
    ensures
        cost::plan_cost(
            diff::diff(Json::String(old), Json::String(old + text), path, pool, patches),
            pool,
        ) <= cost::plan_cost(seq![Act::StringAppend { path, text }], pool),
{
    let new = old + text;
    if text.len() == 0 {
        assert(new =~= old);
    } else {
        assert(new.subrange(0, old.len() as int) =~= old);
        assert(new.skip(old.len() as int) =~= text);
        assert(strings::append_acts(old, new, path) == Some(
            seq![Act::StringAppend { path, text }],
        ));
        law_string_plan_is_the_cheapest(old, new, path, pool, patches);
    }
}

proof fn lemma_prepended(
    old: Seq<char>,
    text: Seq<char>,
    path: Seq<Segment>,
    pool: Seq<Segment>,
    patches: bool,
)
    ensures
        cost::plan_cost(
            diff::diff(Json::String(old), Json::String(text + old), path, pool, patches),
            pool,
        ) <= cost::plan_cost(seq![Act::StringPrepend { path, text }], pool),
{
    let new = text + old;
    if text.len() == 0 {
        assert(new =~= old);
    } else {
        assert(new.subrange(new.len() - old.len(), new.len() as int) =~= old);
        assert(new.take(new.len() - old.len()) =~= text);
        assert(strings::prepend_acts(old, new, path) == Some(
            seq![Act::StringPrepend { path, text }],
        ));
        law_string_plan_is_the_cheapest(old, new, path, pool, patches);
    }
}

/// The plan for two strings costs no more than replacing, appending, prepending, doing both, or
/// patching: whichever of these leads from one to the other.
pub proof fn law_string_plan_is_the_cheapest(
    old: Seq<char>,
    new: Seq<char>,
    path: Seq<Segment>,
    pool: Seq<Segment>,
    patches: bool,
)
    ensures
        ({
            let plan = cost::plan_cost(
                diff::diff(Json::String(old), Json::String(new), path, pool, patches),
                pool,
            );
            &&& plan <= cost::plan_cost(
                seq![Act::Replace { path, value: Json::String(new) }],
                pool,
            )
            &&& strings::append_acts(old, new, path) matches Some(acts) ==> plan
                <= cost::plan_cost(acts, pool)
            &&& strings::prepend_acts(old, new, path) matches Some(acts) ==> plan
                <= cost::plan_cost(acts, pool)
            &&& strings::surround_acts(old, new, path) matches Some(acts) ==> plan
                <= cost::plan_cost(acts, pool)
            &&& strings::single_patch_acts(old, new, path) matches Some(acts) ==> plan
                <= cost::plan_cost(acts, pool)
            &&& strings::script_patch_acts(old, new, path) matches Some(acts) ==> plan
                <= cost::plan_cost(acts, pool)
        }),
{
}

/// Where an object loses one property, or an array its last item, the plan costs no more than the
/// REMOVE of that property or item, however deep it stands.
pub proof fn law_plan_costs_no_more_than_one_removal(
    from: Json,
    to: Json,
    path: Seq<Segment>,
    pool: Seq<Segment>,
    patches: bool,
)
    requires
        json::valid(from),
        paths::counted(path),
        path.len() > 0,
        apply::apply_act(from, Act::Remove { path }) == Ok::<Json, ErrorModel>(to),
        actions::value_at(from, path.drop_last()) matches Some(Json::Array(items)) ==> path.last()
            == Segment::Index(items.len() - 1),
    ensures
        cost::plan_cost(diff::diff(from, to, Seq::empty(), pool, patches), pool)
            <= cost::plan_cost(seq![Act::Remove { path }], pool),
{
    let parent = path.drop_last();
    actions::law_remove_takes_a_value_out(from, path);
    actions::lemma_parent_counted(path);
    actions::lemma_observed(from, parent, 0, Step::Parent);
    actions::lemma_valid_value(from, parent, 0);
    let container = actions::value_at(from, parent)->0;
    let changed = apply::remove_from(container, path.last());
    assert(to == apply::put(from, parent, 0, changed));
    lemma_deep_change(from, parent, 0, changed, pool, patches);
    assert(parent.take(0) =~= Seq::<Segment>::empty());
    assert(parent.push(path.last()) =~= path);
    law_plan_costs_no_more_than_changing_parts(container, changed, parent, pool, patches);
    match (container, path.last()) {
        (Json::Object(old), Segment::Key(key)) => {
            let new = string_map::without_key(old, key);
            lemma_removed_property(old, key, parent, pool, patches);
            assert(diff::object_acts(old, new, parent, pool, patches) == seq![
                Act::Remove { path },
            ]);
        },
        (Json::Array(old), Segment::Index(i)) => {
            let new = old.remove(i);
            law_lost_items_are_removed(old, new, parent, pool, patches);
            let acts = diff::itemwise_acts(old, new, parent, pool, patches);
            assert(acts[0] == Act::Remove { path });
            assert(acts =~= seq![Act::Remove { path }]);
        },
        _ => {},
    }
}

/// The values of entries without a key.
proof fn lemma_removed_property(
    old: Seq<(Seq<char>, Json)>,
    key: Seq<char>,
    path: Seq<Segment>,
    pool: Seq<Segment>,
    patches: bool,
)
    requires
        string_map::sorted(old),
        string_map::has_key(old, key),
    ensures
        diff::object_acts(old, string_map::without_key(old, key), path, pool, patches) == seq![
            Act::Remove { path: path.push(Segment::Key(key)) },
        ],
{
    let new = string_map::without_key(old, key);
    string_map::lemma_removed_value(old, key);
    let removed = objects::removed_keys(old, new);
    let added = objects::added_keys(old, new);
    objects::lemma_selected(old, objects::occurring(new, false), old.len());
    objects::lemma_selected(new, objects::occurring(old, false), new.len());
    if added.len() > 0 {
        assert(added.contains(added[0]));
        assert(string_map::value_of(new, added[0]) is Some);
        assert(string_map::value_of(old, added[0]) is None);
    }
    string_map::lemma_slot_range(old, key);
    assert(string_map::value_of(new, key) is None);
    assert(removed.contains(key));
    assert forall|k: Seq<char>| removed.contains(k) implies k == key by {
        assert(string_map::value_of(old, k) is Some);
        assert(string_map::value_of(new, k) is None);
    }
    lemma_only_element(removed, key);
    assert(removed =~= seq![key]);
    assert(added =~= Seq::empty());
    let moved = objects::moves(old, new, path, pool, 1);
    assert(objects::moves(old, new, path, pool, 0).added == added);
    assert(moved.acts =~= Seq::empty());
    assert(moved.removed =~= seq![key]);
    assert(moved.added =~= Seq::empty());
    lemma_untouched(old, new, path, pool, patches, old.len());
    let acts = diff::object_acts(old, new, path, pool, patches);
    assert(acts =~= seq![Act::Remove { path: path.push(Segment::Key(key)) }]);
}

proof fn lemma_only_element(keys: Seq<Seq<char>>, key: Seq<char>)
    requires
        keys.no_duplicates(),
        keys.contains(key),
        forall|k: Seq<char>| keys.contains(k) ==> k == key,
    ensures
        keys.len() == 1,
        keys[0] == key,
{
    let i = choose|i: int| 0 <= i < keys.len() && keys[i] == key;
    if keys.len() > 1 {
        let j = if i == 0 {
            1int
        } else {
            0int
        };
        assert(keys.contains(keys[j]));
        assert(keys[j] == keys[i]);
    }
    assert(keys.contains(keys[0]));
}

/// Nothing is done under keys whose values stay.
proof fn lemma_untouched(
    old: Seq<(Seq<char>, Json)>,
    new: Seq<(Seq<char>, Json)>,
    path: Seq<Segment>,
    pool: Seq<Segment>,
    patches: bool,
    count: nat,
)
    requires
        string_map::sorted(old),
        count <= old.len(),
        forall|k: Seq<char>| #[trigger]
            string_map::value_of(new, k) is Some && string_map::value_of(old, k) is Some
                ==> string_map::value_of(new, k) == string_map::value_of(old, k),
    ensures
        diff::entry_acts(old, new, path, pool, patches, count) == Seq::<Act>::empty(),
    decreases count,
{
    if count > 0 {
        let entry = old[count - 1];
        lemma_untouched(old, new, path, pool, patches, (count - 1) as nat);
        string_map::lemma_slot_of(old, count - 1);
        let before = diff::entry_acts(old, new, path, pool, patches, (count - 1) as nat);
        if string_map::has_key(new, entry.0) {
            assert(string_map::value_of(new, entry.0) == string_map::value_of(old, entry.0));
            let value = string_map::lookup(new, entry.0);
            let child = objects::property(path, entry.0);
            assert(diff::diff(entry.1, value, child, pool, patches) == Seq::<Act>::empty());
        }
        assert(diff::entry_acts(old, new, path, pool, patches, count) =~= Seq::<Act>::empty());
    }
}

/// Where an object gains one property, or an array an item at its end, the plan costs no more than
/// the ADD of that property or item, however deep it stands.
pub proof fn law_plan_costs_no_more_than_one_addition(
    from: Json,
    to: Json,
    path: Seq<Segment>,
    value: Json,
    pool: Seq<Segment>,
    patches: bool,
)
    requires
        json::valid(from),
        paths::counted(path),
        path.len() > 0,
        actions::value_at(from, path) is None,
        path.last() matches Segment::Key(key) ==> actions::value_at(
            from,
            path.drop_last(),
        ) matches Some(Json::Object(_)),
        apply::apply_act(from, Act::Add { path, value }) == Ok::<Json, ErrorModel>(to),
    ensures
        cost::plan_cost(diff::diff(from, to, Seq::empty(), pool, patches), pool)
            <= cost::plan_cost(seq![Act::Add { path, value }], pool),
{
    let parent = path.drop_last();
    actions::law_add_puts_a_value_in(from, path, value);
    actions::lemma_parent_counted(path);
    actions::lemma_parent(from, path, 0);
    actions::lemma_observed(from, parent, 0, Step::Parent);
    actions::lemma_valid_value(from, parent, 0);
    let container = actions::value_at(from, parent)->0;
    let changed = apply::add_to(container, path.last(), value);
    assert(to == apply::put(from, parent, 0, changed));
    lemma_deep_change(from, parent, 0, changed, pool, patches);
    assert(parent.take(0) =~= Seq::<Segment>::empty());
    assert(parent.push(path.last()) =~= path);
    law_plan_costs_no_more_than_changing_parts(container, changed, parent, pool, patches);
    match (container, path.last()) {
        (Json::Object(old), Segment::Key(key)) => {
            lemma_added_property(old, key, value, parent, pool, patches);
        },
        (Json::Array(old), Segment::Index(i)) => {
            let new = old.insert(i, value);
            assert(i == old.len());
            law_gained_items_are_added(old, new, parent, pool, patches);
            let acts = diff::itemwise_acts(old, new, parent, pool, patches);
            assert(acts[0] == Act::Add { path, value });
            assert(acts =~= seq![Act::Add { path, value }]);
        },
        _ => {},
    }
}

proof fn lemma_added_property(
    old: Seq<(Seq<char>, Json)>,
    key: Seq<char>,
    value: Json,
    path: Seq<Segment>,
    pool: Seq<Segment>,
    patches: bool,
)
    requires
        string_map::sorted(old),
        !string_map::has_key(old, key),
    ensures
        ({
            let new = string_map::with_entry(old, key, value);
            let acts = diff::object_acts(old, new, path, pool, patches);
            let target = path.push(Segment::Key(key));
            &&& cost::plan_cost(acts, pool) <= cost::plan_cost(
                seq![Act::Add { path: target, value }],
                pool,
            )
            &&& match objects::copy_source(key, old, new, path, pool) {
                Some(source) => acts == seq![
                    Act::Copy { from: path.push(Segment::Key(source)), path: target },
                ],
                None => acts == seq![Act::Add { path: target, value }],
            }
        }),
{
    let new = string_map::with_entry(old, key, value);
    string_map::lemma_put_value(old, key, value);
    assert(string_map::value_of(new, key) == Some(value));
    let removed = objects::removed_keys(old, new);
    let added = objects::added_keys(old, new);
    objects::lemma_selected(old, objects::occurring(new, false), old.len());
    objects::lemma_selected(new, objects::occurring(old, false), new.len());
    if removed.len() > 0 {
        assert(removed.contains(removed[0]));
        assert(string_map::value_of(old, removed[0]) is Some);
        assert(string_map::value_of(new, removed[0]) is None);
    }
    string_map::lemma_slot_range(new, key);
    assert(string_map::value_of(old, key) is None);
    assert(added.contains(key));
    assert forall|k: Seq<char>| added.contains(k) implies k == key by {
        assert(string_map::value_of(new, k) is Some);
        assert(string_map::value_of(old, k) is None);
    }
    lemma_only_element(added, key);
    assert(added =~= seq![key]);
    assert(removed =~= Seq::empty());
    let moved = objects::moves(old, new, path, pool, 0);
    assert(moved.added == added);
    let copied = objects::copies(added, old, new, path, pool, 1);
    let none = objects::copies(added, old, new, path, pool, 0);
    assert(copied == objects::copy_one(none, key, old, new, path, pool));
    lemma_untouched(old, new, path, pool, patches, old.len());
    let acts = diff::object_acts(old, new, path, pool, patches);
    let target = path.push(Segment::Key(key));
    match objects::copy_source(key, old, new, path, pool) {
        Some(source) => {
            assert(acts =~= seq![
                Act::Copy { from: path.push(Segment::Key(source)), path: target },
            ]);
        },
        None => {
            assert(acts =~= seq![Act::Add { path: target, value }]);
        },
    }
}

/// Where a property only gets another key, it is moved, unless removing and adding it costs no
/// more.
pub proof fn law_renamed_properties_are_moved(
    old: Seq<(Seq<char>, Json)>,
    new: Seq<(Seq<char>, Json)>,
    key: Seq<char>,
    target: Seq<char>,
    path: Seq<Segment>,
    pool: Seq<Segment>,
    patches: bool,
)
    requires
        string_map::sorted(old),
        string_map::sorted(new),
        string_map::value_of(old, key) is Some,
        string_map::value_of(new, key) is None,
        string_map::value_of(old, target) is None,
        string_map::value_of(new, target) is Some,
        json::same(
            string_map::value_of(old, key)->0,
            string_map::value_of(new, target)->0,
        ),
        forall|k: Seq<char>|
            k != key && k != target ==> #[trigger] string_map::value_of(new, k)
                == string_map::value_of(old, k),
        cost::plan_cost(
            seq![
                Act::Move {
                    from: path.push(Segment::Key(key)),
                    path: path.push(Segment::Key(target)),
                },
            ],
            pool,
        ) < cost::plan_cost(
            seq![
                Act::Remove { path: path.push(Segment::Key(key)) },
                Act::Add {
                    path: path.push(Segment::Key(target)),
                    value: string_map::value_of(new, target)->0,
                },
            ],
            pool,
        ),
    ensures
        diff::object_acts(old, new, path, pool, patches) == seq![
            Act::Move {
                from: path.push(Segment::Key(key)),
                path: path.push(Segment::Key(target)),
            },
        ],
{
    let removed = objects::removed_keys(old, new);
    let added = objects::added_keys(old, new);
    objects::lemma_selected(old, objects::occurring(new, false), old.len());
    objects::lemma_selected(new, objects::occurring(old, false), new.len());
    string_map::lemma_slot_range(old, key);
    string_map::lemma_slot_range(new, target);
    assert(removed.contains(key));
    assert(added.contains(target));
    assert forall|k: Seq<char>| removed.contains(k) implies k == key by {
        assert(string_map::value_of(old, k) is Some);
        assert(string_map::value_of(new, k) is None);
    }
    assert forall|k: Seq<char>| added.contains(k) implies k == target by {
        assert(string_map::value_of(new, k) is Some);
        assert(string_map::value_of(old, k) is None);
    }
    lemma_only_element(removed, key);
    lemma_only_element(added, target);
    let none = objects::moves(old, new, path, pool, 0);
    let moved = objects::moves(old, new, path, pool, 1);
    let value = string_map::lookup(old, key);
    digest::law_equal_values_have_equal_digests(
        value,
        string_map::lookup(new, target),
    );
    assert(none.added == added);
    assert(objects::first_digest(
        added,
        new,
        digest::digest(value),
        0,
    ) == Some(0int));
    assert(objects::move_target(none, key, old, new, path, pool) == Some(0int));
    assert(moved == objects::move_one(none, key, old, new, path, pool));
    assert(moved.added =~= Seq::empty());
    assert(moved.removed =~= Seq::empty());
    lemma_untouched(old, new, path, pool, patches, old.len());
    let acts = diff::object_acts(old, new, path, pool, patches);
    assert(acts =~= seq![
        Act::Move { from: path.push(Segment::Key(key)), path: path.push(Segment::Key(target)) },
    ]);
}

/// Whether so many items at the front, and so many at the back, are all that two sequences have in
/// common there.
pub open spec fn common_ends(p: Problem, front: int, back: int) -> bool {
    &&& 0 <= front
    &&& 0 <= back
    &&& front + back <= p.n
    &&& front + back <= p.m
    &&& forall|i: int| 0 <= i < front ==> #[trigger] (p.alike)(i, i)
    &&& front < p.n && front < p.m ==> !(p.alike)(front, front)
    &&& forall|i: int| 0 <= i < back ==> #[trigger] (p.alike)(p.n - 1 - i, p.m - 1 - i)
    &&& front + back < p.n && front + back < p.m ==> !(p.alike)(p.n - 1 - back, p.m - 1 - back)
}

proof fn lemma_common_ends(p: Problem, front: int, back: int)
    requires
        p.well_formed(),
        common_ends(p, front, back),
    ensures
        sequences::prefix_len(p) == front,
        sequences::suffix_len(p) == back,
{
    upkeep::law_prefix_is_longest(p, front);
    if sequences::prefix_len(p) > front {
        upkeep::law_prefix_is_longest(p, front + 1);
        assert((p.alike)(front, front));
    }
    sequences::law_suffix_is_longest(p, front, back);
    if sequences::suffix_beside(p, front) > back {
        sequences::law_suffix_is_longest(p, front, back + 1);
        assert((p.alike)(p.n - 1 - back, p.m - 1 - back));
    }
}

/// Where a string has changed between its ends, the plan costs no more than one edit that replaces
/// what lies between them, and where a shortest script is affordable, no more than its edits.
pub proof fn law_string_plan_costs_no_more_than_patching(
    old: Seq<char>,
    new: Seq<char>,
    front: int,
    back: int,
    path: Seq<Segment>,
    pool: Seq<Segment>,
    patches: bool,
)
    requires
        common_ends(myers::problem_of(old, new), front, back),
    ensures
        ({
            let plan = cost::plan_cost(
                diff::diff(Json::String(old), Json::String(new), path, pool, patches),
                pool,
            );
            let a = old.subrange(front, old.len() - back);
            let b = new.subrange(front, new.len() - back);
            let edit = Edit { start: front, delete_count: a.len() as int, items: b };
            let script = hunks::script_edits(myers::problem_of(a, b).script(), b, front);
            &&& plan <= cost::plan_cost(seq![Act::StringPatch { path, edits: seq![edit] }], pool)
            &&& a.len() > 0 && b.len() > 0 && a.len() * b.len() <= 100_000 && (a.len() + b.len()
                + 1) * (2 * (a.len() + b.len()) + 3) <= 2_000_000 && script.len() > 0 ==> plan
                <= cost::plan_cost(seq![Act::StringPatch { path, edits: script }], pool)
        }),
{
    let p = myers::problem_of(old, new);
    lemma_common_ends(p, front, back);
    let a = old.subrange(front, old.len() - back);
    let b = new.subrange(front, new.len() - back);
    assert(a == sequences::middle(old, p));
    assert(b == sequences::middle(new, p));
    law_string_plan_is_the_cheapest(old, new, path, pool, patches);
    if a.len() == 0 && b.len() == 0 {
        assert forall|i: int| 0 <= i < old.len() implies old[i] == new[i] by {
            assert((p.alike)(i, i)) by {
                if i >= front {
                    let j = old.len() - 1 - i;
                    assert((p.alike)(p.n - 1 - j, p.m - 1 - j));
                }
            }
        }
        assert(old =~= new);
    }
}

/// With array patches, the plan for two arrays costs no more than one edit that replaces what lies
/// between their common ends, and where a shortest script is affordable, no more than its edits.
pub proof fn law_array_plan_costs_no_more_than_patching(
    old: Seq<Json>,
    new: Seq<Json>,
    front: int,
    back: int,
    path: Seq<Segment>,
    pool: Seq<Segment>,
)
    requires
        common_ends(arrays::value_problem(old, new), front, back),
    ensures
        ({
            let plan = cost::plan_cost(
                diff::diff(Json::Array(old), Json::Array(new), path, pool, true),
                pool,
            );
            let a = old.subrange(front, old.len() - back);
            let b = new.subrange(front, new.len() - back);
            let edit = Edit { start: front, delete_count: a.len() as int, items: b };
            let script = hunks::script_edits(arrays::value_problem(a, b).script(), b, front);
            &&& plan <= cost::plan_cost(seq![Act::ArrayPatch { path, edits: seq![edit] }], pool)
            &&& a.len() > 0 && b.len() > 0 && a.len() * b.len() <= 100_000 && (a.len() + b.len()
                + 1) * (2 * (a.len() + b.len()) + 3) <= 2_000_000 && script.len() > 0 ==> plan
                <= cost::plan_cost(seq![Act::ArrayPatch { path, edits: script }], pool)
        }),
{
    let p = arrays::value_problem(old, new);
    lemma_common_ends(p, front, back);
    let a = old.subrange(front, old.len() - back);
    let b = new.subrange(front, new.len() - back);
    assert(a == sequences::middle(old, p));
    assert(b == sequences::middle(new, p));
    json::lemma_same_arrays(old, new);
    if a.len() == 0 && b.len() == 0 {
        assert forall|i: int| 0 <= i < old.len() implies json::same(#[trigger] old[i], new[i]) by {
            assert((p.alike)(i, i)) by {
                if i >= front {
                    let j = old.len() - 1 - i;
                    assert((p.alike)(p.n - 1 - j, p.m - 1 - j));
                }
            }
        }
    }
}

} // verus!
