//! Plans lead to the new document.

use vstd::prelude::*;

use crate::apply;
use crate::apply::Step;
use crate::json;
use crate::json::Json;
use crate::laws::arrays;
use crate::laws::normal;
use crate::laws::objects;
use crate::laws::objects::Pair;
use crate::laws::paths;
use crate::laws::strings;
use crate::message::action::{Act, Segment};
use crate::producer;
use crate::producer::diff;
use crate::string_map;

verus! {

/// The items of an array the first of which have been changed.
spec fn mixed(old: Seq<Json>, new: Seq<Json>, count: nat) -> Seq<Json> {
    normal::norm_items(new).take(count as int) + normal::norm_items(old).skip(count as int)
}

/// Changing the first items of an array leads to an array that begins as the new one does.
proof fn lemma_items(
    root: Json,
    path: Seq<Segment>,
    old: Seq<Json>,
    new: Seq<Json>,
    pool: Seq<Segment>,
    patches: bool,
    count: nat,
)
    requires
        paths::counted(path),
        paths::found(root, path, Json::Array(normal::norm_items(old))),
        count <= old.len(),
        count <= new.len(),
        forall|i: int| 0 <= i < old.len() ==> json::valid(#[trigger] old[i]),
        forall|i: int| 0 <= i < old.len() ==> json::in_memory(#[trigger] old[i]),
        forall|i: int| 0 <= i < new.len() ==> json::valid(#[trigger] new[i]),
        objects::dash_free_sources(diff::item_acts(old, new, path, pool, patches, count)),
    ensures
        paths::leads(
            root,
            normal::norm_acts(diff::item_acts(old, new, path, pool, patches, count)),
            apply::put(root, path, 0, Json::Array(mixed(old, new, count))),
        ),
    decreases old, count,
{
    let before = Json::Array(normal::norm_items(old));
    if count == 0 {
        assert(mixed(old, new, 0) =~= normal::norm_items(old));
        apply::lemma_put_same(root, path, 0, Step::Target);
        assert(normal::norm_acts(
            diff::item_acts(old, new, path, pool, patches, 0),
        ) =~= Seq::empty());
        paths::lemma_leads_nowhere(root);
    } else {
        let i = count - 1;
        let first = diff::item_acts(old, new, path, pool, patches, i as nat);
        let last = diff::diff(old[i], new[i], diff::element(path, i), pool, patches);
        objects::lemma_dash_free_parts(first, last);
        objects::lemma_norm_parts(first, last);
        lemma_items(root, path, old, new, pool, patches, i as nat);
        let items = mixed(old, new, i as nat);
        let here = apply::put(root, path, 0, Json::Array(items));
        let next = mixed(old, new, count);
        let segment = Segment::Index(i);
        assert(items[i] == json::norm(old[i]));
        assert(items.update(i, json::norm(new[i])) =~= next);
        paths::lemma_put(root, path, 0, before, Json::Array(items), Json::Array(next));
        paths::lemma_longer(here, path, 0, segment, Json::Array(items));
        lemma_diff(here, diff::element(path, i), old[i], new[i], pool, patches);
        paths::lemma_leads_on(
            root,
            normal::norm_acts(first),
            here,
            normal::norm_acts(last),
            apply::put(root, path, 0, Json::Array(next)),
        );
    }
}

/// Changing an array item by item leads to the new array.
proof fn lemma_itemwise(
    root: Json,
    path: Seq<Segment>,
    old: Seq<Json>,
    new: Seq<Json>,
    pool: Seq<Segment>,
    patches: bool,
)
    requires
        paths::counted(path),
        paths::found(root, path, Json::Array(normal::norm_items(old))),
        forall|i: int| 0 <= i < old.len() ==> json::valid(#[trigger] old[i]),
        forall|i: int| 0 <= i < old.len() ==> json::in_memory(#[trigger] old[i]),
        forall|i: int| 0 <= i < new.len() ==> json::valid(#[trigger] new[i]),
        objects::dash_free_sources(diff::itemwise_acts(old, new, path, pool, patches)),
    ensures
        paths::leads(
            root,
            normal::norm_acts(diff::itemwise_acts(old, new, path, pool, patches)),
            apply::put(root, path, 0, Json::Array(normal::norm_items(new))),
        ),
    decreases old, old.len() + 1,
{
    let before = Json::Array(normal::norm_items(old));
    let common = diff::shorter(old.len(), new.len());
    let items = diff::item_acts(old, new, path, pool, patches, common);
    let shrink = diff::shrink_acts(old.len(), common, path);
    let grow = diff::grow_acts(new, common, path);
    objects::lemma_dash_free_parts(items + shrink, grow);
    objects::lemma_dash_free_parts(items, shrink);
    objects::lemma_norm_parts(items + shrink, grow);
    objects::lemma_norm_parts(items, shrink);
    lemma_items(root, path, old, new, pool, patches, common);
    let reached = mixed(old, new, common);
    arrays::lemma_shrink(root, path, before, reached, common);
    let to = normal::norm_items(new);
    assert(reached.take(common as int) =~= to.take(common as int));
    arrays::lemma_grow(root, path, before, new, common);
    let a = apply::put(root, path, 0, Json::Array(reached));
    let b = apply::put(root, path, 0, Json::Array(to.take(common as int)));
    let c = apply::put(root, path, 0, Json::Array(to));
    paths::lemma_leads_on(root, normal::norm_acts(items), a, normal::norm_acts(shrink), b);
    paths::lemma_leads_on(
        root,
        normal::norm_acts(items) + normal::norm_acts(shrink),
        b,
        normal::norm_acts(grow),
        c,
    );
}

/// How far the values of an object have been changed.
spec fn part_way(
    entries: Seq<(Seq<char>, Json)>,
    pair: Pair,
    missing: Seq<Seq<char>>,
    count: nat,
) -> bool {
    &&& string_map::sorted(entries)
    &&& forall|key: Seq<char>| #[trigger]
        string_map::value_of(entries, key) == if pair.common(key) {
            if string_map::slot(pair.old, key) < count {
                objects::norm_value(pair.new, key)
            } else {
                objects::norm_value(pair.old, key)
            }
        } else if pair.added(key) && !missing.contains(key) {
            objects::norm_value(pair.new, key)
        } else {
            None
        }
}

/// Changing the values under the first common keys.
proof fn lemma_entries(
    root: Json,
    path: Seq<Segment>,
    before: Json,
    pair: Pair,
    pool: Seq<Segment>,
    patches: bool,
    missing: Seq<Seq<char>>,
    start: Seq<(Seq<char>, Json)>,
    count: nat,
) -> (reached: Seq<(Seq<char>, Json)>)
    requires
        paths::counted(path),
        paths::found(root, path, before),
        pair.sorted(),
        count <= pair.old.len(),
        forall|i: int| 0 <= i < pair.old.len() ==> json::valid((#[trigger] pair.old[i]).1),
        forall|i: int| 0 <= i < pair.old.len() ==> json::in_memory((#[trigger] pair.old[i]).1),
        forall|i: int| 0 <= i < pair.new.len() ==> json::valid((#[trigger] pair.new[i]).1),
        pair.reached(start, objects::never(), missing),
        objects::dash_free_sources(
            diff::entry_acts(pair.old, pair.new, path, pool, patches, count),
        ),
    ensures
        part_way(reached, pair, missing, count),
        paths::leads(
            apply::put(root, path, 0, Json::Object(start)),
            normal::norm_acts(diff::entry_acts(pair.old, pair.new, path, pool, patches, count)),
            apply::put(root, path, 0, Json::Object(reached)),
        ),
    decreases pair.old, count,
{
    let begin = apply::put(root, path, 0, Json::Object(start));
    let acts = diff::entry_acts(pair.old, pair.new, path, pool, patches, count);
    if count == 0 {
        assert(normal::norm_acts(acts) =~= Seq::empty());
        paths::lemma_leads_nowhere(begin);
        assert forall|key: Seq<char>| #[trigger]
            string_map::value_of(start, key) == if pair.common(key) {
                if string_map::slot(pair.old, key) < count {
                    objects::norm_value(pair.new, key)
                } else {
                    objects::norm_value(pair.old, key)
                }
            } else if pair.added(key) && !missing.contains(key) {
                objects::norm_value(pair.new, key)
            } else {
                None
            } by {
            string_map::lemma_slot_range(pair.old, key);
        }
        start
    } else {
        let earlier = (count - 1) as nat;
        let entry = pair.old[count - 1];
        let key = entry.0;
        let first = diff::entry_acts(pair.old, pair.new, path, pool, patches, earlier);
        string_map::lemma_slot_of(pair.old, count - 1);
        if string_map::has_key(pair.new, key) {
            let value = string_map::lookup(pair.new, key);
            let child = producer::objects::property(path, key);
            let last = diff::diff(entry.1, value, child, pool, patches);
            objects::lemma_dash_free_parts(first, last);
            objects::lemma_norm_parts(first, last);
            let there = lemma_entries(
                root,
                path,
                before,
                pair,
                pool,
                patches,
                missing,
                start,
                earlier,
            );
            normal::lemma_norm_lookup(pair.old, key);
            normal::lemma_norm_lookup(pair.new, key);
            assert(string_map::value_of(there, key) == objects::norm_value(pair.old, key));
            assert(json::valid(value)) by {
                string_map::lemma_slot_range(pair.new, key);
                assert(pair.new[string_map::slot(pair.new, key)].1 == value);
            }
            assert(decreases_to!(pair.old => pair.old[count - 1]));
            assert(decreases_to!(entry => entry.1));
            let next = string_map::with_entry(there, key, json::norm(value));
            let here = apply::put(root, path, 0, Json::Object(there));
            paths::lemma_put(root, path, 0, before, Json::Object(there), Json::Object(next));
            lemma_property_found(here, path, there, key, json::norm(value));
            lemma_diff(here, child, entry.1, value, pool, patches);
            paths::lemma_leads_on(
                begin,
                normal::norm_acts(first),
                here,
                normal::norm_acts(last),
                apply::put(root, path, 0, Json::Object(next)),
            );
            string_map::lemma_put_value(there, key, json::norm(value));
            lemma_part_way(pair, missing, count, there, next);
            next
        } else {
            let there = lemma_entries(
                root,
                path,
                before,
                pair,
                pool,
                patches,
                missing,
                start,
                earlier,
            );
            lemma_part_way(pair, missing, count, there, there);
            there
        }
    }
}

/// The value under a key stands at the path of the property.
proof fn lemma_property_found(
    root: Json,
    path: Seq<Segment>,
    entries: Seq<(Seq<char>, Json)>,
    key: Seq<char>,
    value: Json,
)
    requires
        paths::found(root, path, Json::Object(entries)),
        string_map::has_key(entries, key),
    ensures
        paths::found(
            root,
            producer::objects::property(path, key),
            string_map::lookup(entries, key),
        ),
        apply::put(root, producer::objects::property(path, key), 0, value) == apply::put(
            root,
            path,
            0,
            Json::Object(string_map::with_entry(entries, key, value)),
        ),
{
    paths::lemma_longer(root, path, 0, Segment::Key(key), Json::Object(entries));
}

/// One more key has been dealt with.
proof fn lemma_part_way(
    pair: Pair,
    missing: Seq<Seq<char>>,
    count: nat,
    there: Seq<(Seq<char>, Json)>,
    next: Seq<(Seq<char>, Json)>,
)
    requires
        pair.sorted(),
        0 < count <= pair.old.len(),
        part_way(there, pair, missing, (count - 1) as nat),
        string_map::sorted(next),
        ({
            let key = pair.old[count - 1].0;
            forall|k: Seq<char>| #[trigger]
                string_map::value_of(next, k) == if k == key && string_map::has_key(pair.new, k) {
                    objects::norm_value(pair.new, k)
                } else {
                    string_map::value_of(there, k)
                }
        }),
    ensures
        part_way(next, pair, missing, count),
{
    let key = pair.old[count - 1].0;
    string_map::lemma_slot_of(pair.old, count - 1);
    assert forall|k: Seq<char>| #[trigger]
        string_map::value_of(next, k) == if pair.common(k) {
            if string_map::slot(pair.old, k) < count {
                objects::norm_value(pair.new, k)
            } else {
                objects::norm_value(pair.old, k)
            }
        } else if pair.added(k) && !missing.contains(k) {
            objects::norm_value(pair.new, k)
        } else {
            None
        } by {
        assert(string_map::value_of(there, k) == if pair.common(k) {
            if string_map::slot(pair.old, k) < count - 1 {
                objects::norm_value(pair.new, k)
            } else {
                objects::norm_value(pair.old, k)
            }
        } else if pair.added(k) && !missing.contains(k) {
            objects::norm_value(pair.new, k)
        } else {
            None
        });
    }
}

/// Changing an object property by property leads to the new object.
pub proof fn lemma_object(
    root: Json,
    path: Seq<Segment>,
    old: Seq<(Seq<char>, Json)>,
    new: Seq<(Seq<char>, Json)>,
    pool: Seq<Segment>,
    patches: bool,
)
    requires
        paths::counted(path),
        paths::found(root, path, Json::Object(normal::norm_entries(old))),
        string_map::sorted(old),
        string_map::sorted(new),
        forall|i: int| 0 <= i < old.len() ==> json::valid((#[trigger] old[i]).1),
        forall|i: int| 0 <= i < old.len() ==> json::in_memory((#[trigger] old[i]).1),
        forall|i: int| 0 <= i < new.len() ==> json::valid((#[trigger] new[i]).1),
        objects::dash_free_sources(diff::object_acts(old, new, path, pool, patches)),
    ensures
        paths::leads(
            root,
            normal::norm_acts(diff::object_acts(old, new, path, pool, patches)),
            apply::put(root, path, 0, Json::Object(normal::norm_entries(new))),
        ),
    decreases old, old.len() + 1,
{
    let pair = Pair { old, new };
    let before = Json::Object(normal::norm_entries(old));
    let removed = producer::objects::removed_keys(old, new);
    let moved = producer::objects::moves(old, new, path, pool, removed.len());
    let copied = producer::objects::copies(
        moved.added,
        old,
        new,
        path,
        pool,
        moved.added.len(),
    );
    let first = moved.acts + producer::objects::remove_acts(moved.removed, path) + copied.acts;
    let entries = diff::entry_acts(old, new, path, pool, patches, old.len());
    let adds = producer::objects::add_acts(copied.added, new, path);
    objects::lemma_dash_free_parts(first + entries, adds);
    objects::lemma_dash_free_parts(first, entries);
    objects::lemma_norm_parts(first + entries, adds);
    objects::lemma_norm_parts(first, entries);
    let a = objects::lemma_before_entries(root, path, pair, pool);
    let b = lemma_entries(
        root,
        path,
        before,
        pair,
        pool,
        patches,
        copied.added,
        a,
        old.len(),
    );
    assert(objects::lacks_only(b, new, copied.added)) by {
        assert forall|key: Seq<char>| #[trigger]
            string_map::value_of(b, key) == if copied.added.contains(key) {
                None
            } else {
                objects::norm_value(new, key)
            } by {
            string_map::lemma_slot_range(old, key);
            normal::lemma_norm_lookup(new, key);
        }
    }
    objects::lemma_adds(root, path, before, new, copied.added, b);
    let middle = apply::put(root, path, 0, Json::Object(a));
    let end = apply::put(root, path, 0, Json::Object(b));
    paths::lemma_leads_on(root, normal::norm_acts(first), middle, normal::norm_acts(entries), end);
    paths::lemma_leads_on(
        root,
        normal::norm_acts(first) + normal::norm_acts(entries),
        end,
        normal::norm_acts(adds),
        apply::put(root, path, 0, Json::Object(normal::norm_entries(new))),
    );
}

/// Replacing a value leads to the new one.
proof fn lemma_replace_plan(root: Json, path: Seq<Segment>, from: Json, to: Json)
    requires
        paths::found(root, path, json::norm(from)),
    ensures
        paths::leads(
            root,
            normal::norm_acts(seq![Act::Replace { path, value: to }]),
            apply::put(root, path, 0, json::norm(to)),
        ),
{
    let act = Act::Replace { path, value: to };
    paths::lemma_replace(root, path, json::norm(from), json::norm(to));
    paths::lemma_leads_one(
        root,
        normal::norm_act(act),
        apply::put(root, path, 0, json::norm(to)),
    );
    assert(normal::norm_acts(seq![act]) =~= seq![normal::norm_act(act)]);
}

/// The plan that turns the value at a path into another one does so, up to the sign of zero
/// floats.
pub proof fn lemma_diff(
    root: Json,
    path: Seq<Segment>,
    from: Json,
    to: Json,
    pool: Seq<Segment>,
    patches: bool,
)
    requires
        paths::counted(path),
        paths::found(root, path, json::norm(from)),
        json::valid(from),
        json::in_memory(from),
        json::valid(to),
        objects::dash_free_sources(diff::diff(from, to, path, pool, patches)),
    ensures
        paths::leads(
            root,
            normal::norm_acts(diff::diff(from, to, path, pool, patches)),
            apply::put(root, path, 0, json::norm(to)),
        ),
    decreases from, 0nat,
{
    let plan = diff::diff(from, to, path, pool, patches);
    if json::same(from, to) {
        apply::lemma_put_same(root, path, 0, Step::Target);
        assert(normal::norm_acts(plan) =~= Seq::empty());
        paths::lemma_leads_nowhere(root);
    } else {
        lemma_replace_plan(root, path, from, to);
        let replace = seq![Act::Replace { path, value: to }];
        match (from, to) {
            (Json::Object(old), Json::Object(new)) => {
                normal::lemma_norm_object(old);
                normal::lemma_norm_object(new);
                assert(from->Object_0 == old && to->Object_0 == new);
                if plan == diff::object_acts(old, new, path, pool, patches) {
                    lemma_object(root, path, old, new, pool, patches);
                } else {
                    assert(plan == replace);
                }
            },
            (Json::Array(old), Json::Array(new)) => {
                normal::lemma_norm_array(old);
                normal::lemma_norm_array(new);
                assert(from->Array_0 == old && to->Array_0 == new);
                arrays::lemma_patches(root, path, old, new);
                if plan == diff::itemwise_acts(old, new, path, pool, patches) {
                    lemma_itemwise(root, path, old, new, pool, patches);
                }
            },
            (Json::String(old), Json::String(new)) => {
                strings::lemma_string_plan(root, path, old, new, pool);
            },
            _ => {},
        }
    }
}

} // verus!
