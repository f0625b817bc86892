//! Documents without the key `-` have plans that the consumer accepts.

use vstd::prelude::*;

use crate::json;
use crate::json::Json;
use crate::laws::objects::dash_free_sources;
use crate::laws::paths;
use crate::message::action::{Act, Segment};
use crate::producer::diff;
use crate::producer::digest;
use crate::producer::objects;
use crate::string_map;

verus! {

/// Whether no object in a document has the key `-`.
pub open spec fn no_dash_keys(json: Json) -> bool
    decreases json,
{
    match json {
        Json::Array(items) => forall|i: int|
            0 <= i < items.len() ==> no_dash_keys(#[trigger] items[i]),
        Json::Object(entries) => forall|i: int|
            0 <= i < entries.len() ==> (#[trigger] entries[i]).0 != "-"@ && no_dash_keys(
                entries[i].1,
            ),
        _ => true,
    }
}

/// Whether none of some entries has the key `-`.
spec fn no_dash_entry(entries: Seq<(Seq<char>, Json)>) -> bool {
    forall|i: int| 0 <= i < entries.len() ==> (#[trigger] entries[i]).0 != "-"@
}

proof fn lemma_together(a: Seq<Act>, b: Seq<Act>)
    requires
        dash_free_sources(a),
        dash_free_sources(b),
    ensures
        dash_free_sources(a + b),
{
    assert forall|i: int| 0 <= i < (a + b).len() implies match #[trigger] (a + b)[i] {
        Act::Copy { from, .. } => paths::dash_free(from),
        Act::Move { from, .. } => paths::dash_free(from),
        _ => true,
    } by {
        if i < a.len() {
            assert((a + b)[i] == a[i]);
        } else {
            assert((a + b)[i] == b[i - a.len()]);
        }
    }
}

proof fn lemma_longer(path: Seq<Segment>, segment: Segment)
    requires
        paths::dash_free(path),
        segment != Segment::Key("-"@),
    ensures
        paths::dash_free(path.push(segment)),
{
    assert forall|i: int| 0 <= i < path.push(segment).len() implies #[trigger] path.push(segment)[i]
        != Segment::Key("-"@) by {
        if i < path.len() {
            assert(path.push(segment)[i] == path[i]);
        }
    }
}

/// Selecting keys brings no `-` in.
proof fn lemma_selected(
    entries: Seq<(Seq<char>, Json)>,
    wanted: spec_fn(Seq<char>) -> bool,
    count: nat,
)
    requires
        no_dash_entry(entries),
    ensures
        forall|i: int|
            0 <= i < objects::selected(entries, wanted, count).len() ==> #[trigger] objects::selected(
                entries,
                wanted,
                count,
            )[i] != "-"@,
    decreases count,
{
    if 0 < count <= entries.len() {
        let before = objects::selected(entries, wanted, (count - 1) as nat);
        let keys = objects::selected(entries, wanted, count);
        lemma_selected(entries, wanted, (count - 1) as nat);
        assert(entries[count - 1].0 != "-"@);
        assert forall|i: int| 0 <= i < keys.len() implies #[trigger] keys[i] != "-"@ by {
            if i < before.len() {
                assert(keys[i] == before[i]);
            }
        }
    }
}

proof fn lemma_moves(
    old: Seq<(Seq<char>, Json)>,
    new: Seq<(Seq<char>, Json)>,
    path: Seq<Segment>,
    pool: Seq<Segment>,
    count: nat,
)
    requires
        no_dash_entry(old),
        paths::dash_free(path),
    ensures
        dash_free_sources(objects::moves(old, new, path, pool, count).acts),
    decreases count,
{
    let removed = objects::removed_keys(old, new);
    if 0 < count <= removed.len() {
        let before = objects::moves(old, new, path, pool, (count - 1) as nat);
        let moves = objects::moves(old, new, path, pool, count);
        let key = removed[count - 1];
        lemma_moves(old, new, path, pool, (count - 1) as nat);
        lemma_selected(old, objects::occurring(new, false), old.len());
        lemma_longer(path, Segment::Key(key));
        assert forall|i: int| 0 <= i < moves.acts.len() implies match #[trigger] moves.acts[i] {
            Act::Copy { from, .. } => paths::dash_free(from),
            Act::Move { from, .. } => paths::dash_free(from),
            _ => true,
        } by {
            if i < before.acts.len() {
                assert(moves.acts[i] == before.acts[i]);
            }
        }
    }
}

proof fn lemma_copies(
    keys: Seq<Seq<char>>,
    old: Seq<(Seq<char>, Json)>,
    new: Seq<(Seq<char>, Json)>,
    path: Seq<Segment>,
    pool: Seq<Segment>,
    count: nat,
)
    requires
        no_dash_entry(old),
        paths::dash_free(path),
    ensures
        dash_free_sources(objects::copies(keys, old, new, path, pool, count).acts),
    decreases count,
{
    if 0 < count <= keys.len() {
        let before = objects::copies(keys, old, new, path, pool, (count - 1) as nat);
        let copies = objects::copies(keys, old, new, path, pool, count);
        let key = keys[count - 1];
        let sources = objects::unchanged_keys(old, new);
        lemma_copies(keys, old, new, path, pool, (count - 1) as nat);
        lemma_selected(old, objects::unchanged(old, new), old.len());
        objects::lemma_first_digest(
            sources,
            new,
            digest::digest(string_map::lookup(new, key)),
            0,
        );
        if let Some(source) = objects::copy_source(key, old, new, path, pool) {
            lemma_longer(path, Segment::Key(source));
        }
        assert forall|i: int| 0 <= i < copies.acts.len() implies match #[trigger] copies.acts[i] {
            Act::Copy { from, .. } => paths::dash_free(from),
            Act::Move { from, .. } => paths::dash_free(from),
            _ => true,
        } by {
            if i < before.acts.len() {
                assert(copies.acts[i] == before.acts[i]);
            }
        }
    }
}

proof fn lemma_items(
    old: Seq<Json>,
    new: Seq<Json>,
    path: Seq<Segment>,
    pool: Seq<Segment>,
    patches: bool,
    count: nat,
)
    requires
        forall|i: int| 0 <= i < old.len() ==> no_dash_keys(#[trigger] old[i]),
        paths::dash_free(path),
        count <= old.len(),
    ensures
        dash_free_sources(diff::item_acts(old, new, path, pool, patches, count)),
    decreases old, count,
{
    if count > 0 {
        let i = count - 1;
        let child = diff::element(path, i);
        lemma_items(old, new, path, pool, patches, i as nat);
        lemma_longer(path, Segment::Index(i));
        law_documents_without_dashes_have_accepted_plans(
            old[i],
            new[i],
            child,
            pool,
            patches,
        );
        lemma_together(
            diff::item_acts(old, new, path, pool, patches, i as nat),
            diff::diff(old[i], new[i], child, pool, patches),
        );
    }
}

proof fn lemma_entries(
    old: Seq<(Seq<char>, Json)>,
    new: Seq<(Seq<char>, Json)>,
    path: Seq<Segment>,
    pool: Seq<Segment>,
    patches: bool,
    count: nat,
)
    requires
        no_dash_entry(old),
        forall|i: int| 0 <= i < old.len() ==> no_dash_keys((#[trigger] old[i]).1),
        paths::dash_free(path),
        count <= old.len(),
    ensures
        dash_free_sources(diff::entry_acts(old, new, path, pool, patches, count)),
    decreases old, count,
{
    if count > 0 {
        let entry = old[count - 1];
        lemma_entries(old, new, path, pool, patches, (count - 1) as nat);
        if string_map::has_key(new, entry.0) {
            let value = string_map::lookup(new, entry.0);
            let child = objects::property(path, entry.0);
            lemma_longer(path, Segment::Key(entry.0));
            assert(decreases_to!(old => old[count - 1]));
            assert(decreases_to!(entry => entry.1));
            law_documents_without_dashes_have_accepted_plans(
                entry.1,
                value,
                child,
                pool,
                patches,
            );
            lemma_together(
                diff::entry_acts(old, new, path, pool, patches, (count - 1) as nat),
                diff::diff(entry.1, value, child, pool, patches),
            );
        }
    }
}

/// The plan that changes the properties of an object copies and moves from no path with `-` in it
/// if neither the path of the object nor the keys in the old one hold it.
pub proof fn law_objects_without_dashes_have_accepted_plans(
    old: Seq<(Seq<char>, Json)>,
    new: Seq<(Seq<char>, Json)>,
    path: Seq<Segment>,
    pool: Seq<Segment>,
    patches: bool,
)
    requires
        no_dash_keys(Json::Object(old)),
        paths::dash_free(path),
    ensures
        dash_free_sources(diff::object_acts(old, new, path, pool, patches)),
    decreases old, old.len() + 1,
{
    let from = Json::Object(old);
    assert(from->Object_0 == old);
    let removed = objects::removed_keys(old, new);
    let moved = objects::moves(old, new, path, pool, removed.len());
    let copied = objects::copies(moved.added, old, new, path, pool, moved.added.len());
    let removes = objects::remove_acts(moved.removed, path);
    let entries = diff::entry_acts(old, new, path, pool, patches, old.len());
    let adds = objects::add_acts(copied.added, new, path);
    lemma_moves(old, new, path, pool, removed.len());
    lemma_copies(moved.added, old, new, path, pool, moved.added.len());
    lemma_entries(old, new, path, pool, patches, old.len());
    lemma_together(moved.acts, removes);
    lemma_together(moved.acts + removes, copied.acts);
    lemma_together(moved.acts + removes + copied.acts, entries);
    lemma_together(moved.acts + removes + copied.acts + entries, adds);
}

/// A plan copies and moves from no path with `-` in it if neither the path of the value nor the
/// keys in the old one hold it.
pub proof fn law_documents_without_dashes_have_accepted_plans(
    from: Json,
    to: Json,
    path: Seq<Segment>,
    pool: Seq<Segment>,
    patches: bool,
)
    requires
        no_dash_keys(from),
        paths::dash_free(path),
    ensures
        dash_free_sources(diff::diff(from, to, path, pool, patches)),
    decreases from, 0nat,
{
    if !json::same(from, to) {
        match (from, to) {
            (Json::Object(old), Json::Object(new)) => {
                assert(from->Object_0 == old);
                law_objects_without_dashes_have_accepted_plans(old, new, path, pool, patches);
            },
            (Json::Array(old), Json::Array(new)) => {
                assert(from->Array_0 == old);
                let common = diff::shorter(old.len(), new.len());
                let items = diff::item_acts(old, new, path, pool, patches, common);
                let shrink = diff::shrink_acts(old.len(), common, path);
                let grow = diff::grow_acts(new, common, path);
                lemma_items(old, new, path, pool, patches, common);
                lemma_together(items, shrink);
                lemma_together(items + shrink, grow);
            },
            _ => {},
        }
    }
}

} // verus!
