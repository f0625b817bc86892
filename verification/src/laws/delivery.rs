//! The actions of plans can be sent.

use vstd::prelude::*;

use crate::apply;
use crate::json;
use crate::json::Json;
use crate::laws::normal;
use crate::laws::patches;
use crate::message::action::{Act, Edit, Segment};
use crate::message::encoder;
use crate::message::json_cbor;
use crate::message::laws;
use crate::patch;
use crate::patch::PatchWording;
use crate::producer::arrays;
use crate::producer::diff;
use crate::producer::hunks;
use crate::producer::myers;
use crate::producer::myers::Problem;
use crate::producer::objects;
use crate::producer::sequences;
use crate::producer::strings;
use crate::string_map;

verus! {

/// Whether an action can be sent: it can be held in memory, the decoder accepts it, and its
/// numbers are safe.
pub open spec fn deliverable(act: Act) -> bool {
    &&& laws::representable(act)
    &&& laws::array_patch_has_effect(act)
    &&& encoder::first_unsafe_number(act) is None
}

/// Whether all actions can be sent.
pub open spec fn all_deliverable(acts: Seq<Act>) -> bool {
    forall|i: int| 0 <= i < acts.len() ==> deliverable(#[trigger] acts[i])
}

/// Actions that can be sent, put together, can be sent.
proof fn lemma_together(a: Seq<Act>, b: Seq<Act>)
    requires
        all_deliverable(a),
        all_deliverable(b),
    ensures
        all_deliverable(a + b),
{
    assert forall|i: int| 0 <= i < (a + b).len() implies deliverable(#[trigger] (a + b)[i]) by {
        if i < a.len() {
            assert((a + b)[i] == a[i]);
        } else {
            assert((a + b)[i] == b[i - a.len()]);
        }
    }
}

/// A path with one more representable segment.
proof fn lemma_longer_path(path: Seq<Segment>, segment: Segment)
    requires
        laws::representable_path(path),
        segment matches Segment::Index(n) ==> 0 <= n <= usize::MAX,
    ensures
        laws::representable_path(path.push(segment)),
{
    let longer = path.push(segment);
    assert forall|i: int| 0 <= i < longer.len() implies (#[trigger] longer[i] matches Segment::Index(
        n,
    ) ==> 0 <= n <= usize::MAX) by {
        if i < path.len() {
            assert(longer[i] == path[i]);
        }
    }
}

/// Two representable paths.
proof fn lemma_two_paths(a: Seq<Segment>, b: Seq<Segment>)
    requires
        laws::representable_path(a),
        laws::representable_path(b),
    ensures
        laws::representable_path(a + b),
{
    let both = a + b;
    assert forall|i: int| 0 <= i < both.len() implies (#[trigger] both[i] matches Segment::Index(n)
        ==> 0 <= n <= usize::MAX) by {
        if i < a.len() {
            assert(both[i] == a[i]);
        } else {
            assert(both[i] == b[i - a.len()]);
        }
    }
}

/// The values of a sound object are sound.
proof fn lemma_sound_value(entries: Seq<(Seq<char>, Json)>, key: Seq<char>)
    requires
        json_cbor::sound(Json::Object(entries)),
        string_map::has_key(entries, key),
    ensures
        json_cbor::sound(string_map::lookup(entries, key)),
{
    let json = Json::Object(entries);
    assert(json->Object_0 == entries);
    string_map::lemma_slot_range(entries, key);
    let at = string_map::slot(entries, key);
    json_cbor::lemma_safe_entry(entries, entries.len(), at);
    assert(json::valid(json->Object_0[at].1));
    assert(json::in_memory(json->Object_0[at].1));
}

/// The items of a sound array are sound.
proof fn lemma_sound_item(items: Seq<Json>, i: int)
    requires
        json_cbor::sound(Json::Array(items)),
        0 <= i < items.len(),
    ensures
        json_cbor::sound(items[i]),
{
    let json = Json::Array(items);
    assert(json->Array_0 == items);
    json_cbor::lemma_safe_item(items, items.len(), i);
    assert(json::valid(json->Array_0[i]));
    assert(json::in_memory(json->Array_0[i]));
}

/// Moves can be sent.
proof fn lemma_moves(
    old: Seq<(Seq<char>, Json)>,
    new: Seq<(Seq<char>, Json)>,
    path: Seq<Segment>,
    pool: Seq<Segment>,
    count: nat,
)
    requires
        laws::representable_path(path),
    ensures
        all_deliverable(objects::moves(old, new, path, pool, count).acts),
    decreases count,
{
    let removed = objects::removed_keys(old, new);
    if 0 < count <= removed.len() {
        let before = objects::moves(old, new, path, pool, (count - 1) as nat);
        let key = removed[count - 1];
        lemma_moves(old, new, path, pool, (count - 1) as nat);
        if let Some(at) = objects::move_target(before, key, old, new, path, pool) {
            let target = before.added[at];
            let act = Act::Move {
                from: objects::property(path, key),
                path: objects::property(path, target),
            };
            lemma_longer_path(path, Segment::Key(key));
            lemma_longer_path(path, Segment::Key(target));
            lemma_two_paths(objects::property(path, key), objects::property(path, target));
            assert(deliverable(act));
            lemma_together(before.acts, seq![act]);
            assert(objects::moves(old, new, path, pool, count).acts =~= before.acts + seq![act]);
        }
    }
}

/// Copies can be sent.
proof fn lemma_copies(
    keys: Seq<Seq<char>>,
    old: Seq<(Seq<char>, Json)>,
    new: Seq<(Seq<char>, Json)>,
    path: Seq<Segment>,
    pool: Seq<Segment>,
    count: nat,
)
    requires
        laws::representable_path(path),
    ensures
        all_deliverable(objects::copies(keys, old, new, path, pool, count).acts),
    decreases count,
{
    if 0 < count <= keys.len() {
        let before = objects::copies(keys, old, new, path, pool, (count - 1) as nat);
        let key = keys[count - 1];
        lemma_copies(keys, old, new, path, pool, (count - 1) as nat);
        if let Some(source) = objects::copy_source(key, old, new, path, pool) {
            let act = Act::Copy {
                from: objects::property(path, source),
                path: objects::property(path, key),
            };
            lemma_longer_path(path, Segment::Key(source));
            lemma_longer_path(path, Segment::Key(key));
            lemma_two_paths(objects::property(path, source), objects::property(path, key));
            assert(deliverable(act));
            lemma_together(before.acts, seq![act]);
            assert(objects::copies(keys, old, new, path, pool, count).acts =~= before.acts
                + seq![act]);
        }
    }
}

/// Whether the edits of a patch have an effect, and their positions are within a sequence of some
/// length.
spec fn edits_fit<T>(edits: Seq<Edit<T>>, length: int) -> bool {
    &&& edits.len() > 0
    &&& forall|i: int|
        0 <= i < edits.len() ==> {
            &&& 0 <= (#[trigger] edits[i]).start
            &&& 0 <= edits[i].delete_count
            &&& edits[i].start + edits[i].delete_count <= length
            &&& edits[i].delete_count > 0 || edits[i].items.len() > 0
        }
}

/// The edits of a script fit.
proof fn lemma_script_fits<T>(
    p: Problem,
    q: Problem,
    old: Seq<T>,
    new: Seq<T>,
    words: PatchWording,
)
    requires
        patches::tells_equal(p, old, new),
        patches::tells_equal(q, sequences::middle(old, p), sequences::middle(new, p)),
        old.len() <= usize::MAX,
        hunks::script_edits(
            q.script(),
            sequences::middle(new, p),
            sequences::prefix_len(p),
        ).len() > 0,
    ensures
        edits_fit(
            hunks::script_edits(
                q.script(),
                sequences::middle(new, p),
                sequences::prefix_len(p),
            ),
            old.len() as int,
        ),
{
    let ops = q.script();
    let prefix = sequences::prefix_len(p);
    let edits = hunks::script_edits(ops, sequences::middle(new, p), prefix);
    let runs = hunks::hunks(ops);
    patches::lemma_script_patch(p, q, old, new, words);
    sequences::lemma_ends(p);
    myers::law_script_leads_to_the_end(q);
    hunks::lemma_fits_in_reach(ops, q.alike);
    assert forall|i: int| 0 <= i < edits.len() implies {
        &&& 0 <= (#[trigger] edits[i]).start
        &&& 0 <= edits[i].delete_count
        &&& edits[i].start + edits[i].delete_count <= old.len()
        &&& edits[i].delete_count > 0 || edits[i].items.len() > 0
    } by {
        hunks::lemma_hunk_bounds(ops, q.m, runs.len() - 1 - i);
        patches::lemma_accepted(edits, edits.len(), old.len() as int, words, i);
    }
}

/// The plan for a string can be sent.
proof fn lemma_string_plan(
    old: Seq<char>,
    new: Seq<char>,
    path: Seq<Segment>,
    pool: Seq<Segment>,
)
    requires
        laws::representable_path(path),
        old.len() <= usize::MAX,
    ensures
        all_deliverable(strings::string_acts(old, new, path, pool)),
{
    let p = myers::problem_of(old, new);
    let words = apply::string_patch_wording();
    assert(patches::tells_equal(p, old, new));
    sequences::lemma_ends(p);
    if let Some(acts) = strings::script_patch_acts(old, new, path) {
        let q = myers::problem_of(sequences::middle(old, p), sequences::middle(new, p));
        assert(patches::tells_equal(q, sequences::middle(old, p), sequences::middle(new, p)));
        lemma_script_fits(p, q, old, new, words);
        let edits = strings::script_patch_edits(old, new);
        assert forall|i: int| 0 <= i < edits.len() implies laws::representable_edit(
            #[trigger] edits[i],
        ) by {
        }
        assert(deliverable(acts[0]));
        assert(all_deliverable(acts));
    }
    if let Some(acts) = strings::single_patch_acts(old, new, path) {
        assert(deliverable(acts[0]));
        assert(all_deliverable(acts));
    }
    let value = Json::String(new);
    assert(deliverable(Act::Replace { path, value }));
    assert(all_deliverable(seq![Act::Replace { path, value }]));
    if let Some(acts) = strings::append_acts(old, new, path) {
        assert(all_deliverable(acts));
    }
    if let Some(acts) = strings::prepend_acts(old, new, path) {
        assert(all_deliverable(acts));
    }
    if let Some(acts) = strings::surround_acts(old, new, path) {
        assert(all_deliverable(acts));
    }
}

/// A patch of an array can be sent.
proof fn lemma_array_patch(edits: Seq<Edit<Json>>, path: Seq<Segment>, length: int)
    requires
        laws::representable_path(path),
        length <= usize::MAX,
        edits_fit(edits, length),
        forall|i: int, j: int|
            0 <= i < edits.len() && 0 <= j < edits[i].items.len() ==> json_cbor::sound(
                #[trigger] edits[i].items[j],
            ),
    ensures
        all_deliverable(seq![Act::ArrayPatch { path, edits }]),
{
    let act = Act::ArrayPatch { path, edits };
    assert forall|i: int| 0 <= i < edits.len() implies laws::representable_array_edit(
        #[trigger] edits[i],
    ) by {
        assert forall|j: int| 0 <= j < edits[i].items.len() implies json::valid(
            #[trigger] edits[i].items[j],
        ) by {
            assert(json_cbor::sound(edits[i].items[j]));
        }
    }
    lemma_edits_safe(edits, edits.len());
    assert(deliverable(act));
}

proof fn lemma_edits_safe(edits: Seq<Edit<Json>>, count: nat)
    requires
        count <= edits.len(),
        forall|i: int, j: int|
            0 <= i < edits.len() && 0 <= j < edits[i].items.len() ==> json_cbor::sound(
                #[trigger] edits[i].items[j],
            ),
    ensures
        encoder::first_unsafe_edit(edits, count) is None,
    decreases count,
{
    if count > 0 {
        lemma_edits_safe(edits, (count - 1) as nat);
        let items = edits[count - 1].items;
        assert forall|j: int| 0 <= j < items.len() implies json_cbor::first_unsafe(
            #[trigger] items[j],
        ) is None by {
            assert(json_cbor::sound(edits[count - 1].items[j]));
        }
        json_cbor::lemma_all_items_safe(items, items.len());
    }
}

/// Patches of an array can be sent.
proof fn lemma_array_patches(old: Seq<Json>, new: Seq<Json>, path: Seq<Segment>)
    requires
        laws::representable_path(path),
        old.len() <= usize::MAX,
        forall|i: int| 0 <= i < new.len() ==> json_cbor::sound(#[trigger] new[i]),
    ensures
        arrays::single_patch_acts(old, new, path) matches Some(acts) ==> all_deliverable(acts),
        arrays::script_patch_acts(old, new, path) matches Some(acts) ==> all_deliverable(acts),
{
    let p = arrays::value_problem(old, new);
    let from = normal::norm_items(old);
    let to = normal::norm_items(new);
    let words = apply::array_patch_wording();
    sequences::lemma_ends(p);
    let prefix = sequences::prefix_len(p);
    let a = sequences::middle(old, p);
    let b = sequences::middle(new, p);
    if let Some(acts) = arrays::single_patch_acts(old, new, path) {
        let edits = seq![Edit { start: prefix, delete_count: a.len() as int, items: b }];
        lemma_array_patch(edits, path, old.len() as int);
    }
    if let Some(acts) = arrays::script_patch_acts(old, new, path) {
        let q = arrays::value_problem(a, b);
        let edits = hunks::script_edits(q.script(), b, prefix);
        assert(normal::norm_items(a) =~= sequences::middle(from, p));
        assert(normal::norm_items(b) =~= sequences::middle(to, p));
        assert(patches::tells_equal(p, from, to));
        assert(patches::tells_equal(q, sequences::middle(from, p), sequences::middle(to, p))) by {
            assert forall|i: int, j: int|
                0 <= i < a.len() && 0 <= j < b.len() && #[trigger] (q.alike)(i, j) implies
                normal::norm_items(a)[i] == normal::norm_items(b)[j] by {
                assert(json::same(a[i], b[j]));
            }
        }
        lemma_script_fits(p, q, from, to, words);
        let fitting = hunks::script_edits(q.script(), sequences::middle(to, p), prefix);
        let runs = hunks::hunks(q.script());
        assert forall|i: int| 0 <= i < edits.len() implies {
            &&& 0 <= (#[trigger] edits[i]).start
            &&& 0 <= edits[i].delete_count
            &&& edits[i].start + edits[i].delete_count <= old.len()
            &&& edits[i].delete_count > 0 || edits[i].items.len() > 0
        } by {
            assert(fitting[i].start == edits[i].start);
            assert(fitting[i].items.len() == edits[i].items.len());
        }
        myers::law_script_leads_to_the_end(q);
        hunks::lemma_fits_in_reach(q.script(), q.alike);
        assert forall|i: int, j: int|
            0 <= i < edits.len() && 0 <= j < edits[i].items.len() implies json_cbor::sound(
            #[trigger] edits[i].items[j],
        ) by {
            let at = runs.len() - 1 - i;
            hunks::lemma_hunk_bounds(q.script(), q.m, at);
            let index = runs[at].inserted[j];
            assert(edits[i].items[j] == new[prefix + index]);
        }
        lemma_array_patch(edits, path, old.len() as int);
    }
}

/// The actions that remove properties can be sent.
proof fn lemma_removes(keys: Seq<Seq<char>>, path: Seq<Segment>)
    requires
        laws::representable_path(path),
    ensures
        all_deliverable(objects::remove_acts(keys, path)),
{
    let acts = objects::remove_acts(keys, path);
    assert forall|i: int| 0 <= i < acts.len() implies deliverable(#[trigger] acts[i]) by {
        lemma_longer_path(path, Segment::Key(keys[i]));
    }
}

/// The actions that add properties can be sent.
proof fn lemma_adds(
    keys: Seq<Seq<char>>,
    new: Seq<(Seq<char>, Json)>,
    path: Seq<Segment>,
)
    requires
        laws::representable_path(path),
        json_cbor::sound(Json::Object(new)),
        forall|i: int| 0 <= i < keys.len() ==> string_map::has_key(new, #[trigger] keys[i]),
    ensures
        all_deliverable(objects::add_acts(keys, new, path)),
{
    let acts = objects::add_acts(keys, new, path);
    assert forall|i: int| 0 <= i < acts.len() implies deliverable(#[trigger] acts[i]) by {
        lemma_longer_path(path, Segment::Key(keys[i]));
        lemma_sound_value(new, keys[i]);
    }
}

/// The plan for the first items of an array can be sent.
proof fn lemma_items(
    old: Seq<Json>,
    new: Seq<Json>,
    path: Seq<Segment>,
    pool: Seq<Segment>,
    patches: bool,
    count: nat,
)
    requires
        laws::representable_path(path),
        json::in_memory(Json::Array(old)),
        json_cbor::sound(Json::Array(new)),
        count <= old.len(),
        count <= new.len(),
    ensures
        all_deliverable(diff::item_acts(old, new, path, pool, patches, count)),
    decreases old, count,
{
    if count > 0 {
        let i = count - 1;
        let from = Json::Array(old);
        let to = Json::Array(new);
        assert(from->Array_0 == old && to->Array_0 == new);
        assert(json::in_memory(from->Array_0[i]));
        assert(to->Array_0.len() <= usize::MAX);
        lemma_items(old, new, path, pool, patches, i as nat);
        lemma_sound_item(new, i);
        lemma_longer_path(path, Segment::Index(i));
        lemma_diff(old[i], new[i], diff::element(path, i), pool, patches);
        lemma_together(
            diff::item_acts(old, new, path, pool, patches, i as nat),
            diff::diff(old[i], new[i], diff::element(path, i), pool, patches),
        );
    }
}

/// The plan that changes an array item by item can be sent.
proof fn lemma_itemwise(
    old: Seq<Json>,
    new: Seq<Json>,
    path: Seq<Segment>,
    pool: Seq<Segment>,
    patches: bool,
)
    requires
        laws::representable_path(path),
        json::in_memory(Json::Array(old)),
        json_cbor::sound(Json::Array(new)),
    ensures
        all_deliverable(diff::itemwise_acts(old, new, path, pool, patches)),
    decreases old, old.len() + 1,
{
    let from = Json::Array(old);
    let to = Json::Array(new);
    assert(from->Array_0 == old && to->Array_0 == new);
    let common = diff::shorter(old.len(), new.len());
    let items = diff::item_acts(old, new, path, pool, patches, common);
    let shrink = diff::shrink_acts(old.len(), common, path);
    let grow = diff::grow_acts(new, common, path);
    lemma_items(old, new, path, pool, patches, common);
    assert forall|i: int| 0 <= i < shrink.len() implies deliverable(#[trigger] shrink[i]) by {
        lemma_longer_path(path, Segment::Index(old.len() - 1 - i));
    }
    assert forall|i: int| 0 <= i < grow.len() implies deliverable(#[trigger] grow[i]) by {
        lemma_longer_path(path, Segment::Index(common + i));
        lemma_sound_item(new, common + i);
    }
    lemma_together(items, shrink);
    lemma_together(items + shrink, grow);
}

/// The plan for the values under the first common keys can be sent.
proof fn lemma_entries(
    old: Seq<(Seq<char>, Json)>,
    new: Seq<(Seq<char>, Json)>,
    path: Seq<Segment>,
    pool: Seq<Segment>,
    patches: bool,
    count: nat,
)
    requires
        laws::representable_path(path),
        json::in_memory(Json::Object(old)),
        json_cbor::sound(Json::Object(new)),
        count <= old.len(),
    ensures
        all_deliverable(diff::entry_acts(old, new, path, pool, patches, count)),
    decreases old, count,
{
    if count > 0 {
        let entry = old[count - 1];
        let from = Json::Object(old);
        assert(from->Object_0 == old);
        assert(json::in_memory(from->Object_0[count - 1].1));
        lemma_entries(old, new, path, pool, patches, (count - 1) as nat);
        if string_map::has_key(new, entry.0) {
            lemma_sound_value(new, entry.0);
            lemma_longer_path(path, Segment::Key(entry.0));
            assert(decreases_to!(old => old[count - 1]));
            assert(decreases_to!(entry => entry.1));
            let value = string_map::lookup(new, entry.0);
            let child = objects::property(path, entry.0);
            lemma_diff(entry.1, value, child, pool, patches);
            lemma_together(
                diff::entry_acts(old, new, path, pool, patches, (count - 1) as nat),
                diff::diff(entry.1, value, child, pool, patches),
            );
        }
    }
}

/// The plan that changes an object property by property can be sent.
pub proof fn lemma_object(
    old: Seq<(Seq<char>, Json)>,
    new: Seq<(Seq<char>, Json)>,
    path: Seq<Segment>,
    pool: Seq<Segment>,
    patches: bool,
)
    requires
        laws::representable_path(path),
        json::in_memory(Json::Object(old)),
        json_cbor::sound(Json::Object(new)),
    ensures
        all_deliverable(diff::object_acts(old, new, path, pool, patches)),
    decreases old, old.len() + 1,
{
    let to = Json::Object(new);
    assert(to->Object_0 == new);
    let removed = objects::removed_keys(old, new);
    let moved = objects::moves(old, new, path, pool, removed.len());
    let copied = objects::copies(moved.added, old, new, path, pool, moved.added.len());
    let removes = objects::remove_acts(moved.removed, path);
    let entries = diff::entry_acts(old, new, path, pool, patches, old.len());
    let adds = objects::add_acts(copied.added, new, path);
    lemma_moves(old, new, path, pool, removed.len());
    lemma_removes(moved.removed, path);
    lemma_copies(moved.added, old, new, path, pool, moved.added.len());
    crate::laws::objects::lemma_left_by_moves(old, new, path, pool, removed.len());
    crate::laws::objects::lemma_left_by_copies(
        moved.added,
        old,
        new,
        path,
        pool,
        moved.added.len(),
    );
    lemma_entries(old, new, path, pool, patches, old.len());
    lemma_adds(copied.added, new, path);
    lemma_together(moved.acts, removes);
    lemma_together(moved.acts + removes, copied.acts);
    lemma_together(moved.acts + removes + copied.acts, entries);
    lemma_together(moved.acts + removes + copied.acts + entries, adds);
}

/// The plan that turns a value into another one can be sent.
pub proof fn lemma_diff(
    from: Json,
    to: Json,
    path: Seq<Segment>,
    pool: Seq<Segment>,
    patches: bool,
)
    requires
        laws::representable_path(path),
        json::in_memory(from),
        json_cbor::sound(to),
    ensures
        all_deliverable(diff::diff(from, to, path, pool, patches)),
    decreases from, 0nat,
{
    if !json::same(from, to) {
        let replace = seq![Act::Replace { path, value: to }];
        assert(deliverable(replace[0]));
        assert(all_deliverable(replace));
        match (from, to) {
            (Json::Object(old), Json::Object(new)) => {
                assert(from->Object_0 == old);
                lemma_object(old, new, path, pool, patches);
            },
            (Json::Array(old), Json::Array(new)) => {
                assert(from->Array_0 == old);
                assert forall|i: int| 0 <= i < new.len() implies json_cbor::sound(#[trigger] new[i]) by {
                    lemma_sound_item(new, i);
                }
                lemma_itemwise(old, new, path, pool, patches);
                lemma_array_patches(old, new, path);
            },
            (Json::String(old), Json::String(new)) => {
                lemma_string_plan(old, new, path, pool);
            },
            _ => {},
        }
    }
}

} // verus!
