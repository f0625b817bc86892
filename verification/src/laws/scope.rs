//! Which parts of a document the actions of a plan touch.

use vstd::prelude::*;

use crate::json;
use crate::json::Json;
use crate::message::action::{Act, Segment};
use crate::producer::diff;
use crate::producer::digest;
use crate::producer::objects;
use crate::string_map;

verus! {

/// The path at which an action changes a document.
pub open spec fn target(act: Act) -> Seq<Segment> {
    match act {
        Act::Snapshot { .. } => Seq::empty(),
        Act::Add { path, .. } => path,
        Act::Remove { path } => path,
        Act::Replace { path, .. } => path,
        Act::StringAppend { path, .. } => path,
        Act::StringPrepend { path, .. } => path,
        Act::StringPatch { path, .. } => path,
        Act::ArrayPatch { path, .. } => path,
        Act::Copy { path, .. } => path,
        Act::Move { path, .. } => path,
    }
}

/// Whether an action changes the value at a path or below.
pub open spec fn at_or_below(act: Act, path: Seq<Segment>) -> bool {
    target(act).len() >= path.len() && target(act).take(path.len() as int) == path
}

/// Whether actions stay at or below a path, and patch arrays only where that is allowed.
pub open spec fn within(acts: Seq<Act>, path: Seq<Segment>, patches: bool) -> bool {
    forall|i: int|
        0 <= i < acts.len() ==> {
            &&& at_or_below(#[trigger] acts[i], path)
            &&& acts[i] is ArrayPatch ==> patches
        }
}

proof fn lemma_together(a: Seq<Act>, b: Seq<Act>, path: Seq<Segment>, patches: bool)
    requires
        within(a, path, patches),
        within(b, path, patches),
    ensures
        within(a + b, path, patches),
{
    assert forall|i: int| 0 <= i < (a + b).len() implies {
        &&& at_or_below(#[trigger] (a + b)[i], path)
        &&& (a + b)[i] is ArrayPatch ==> patches
    } by {
        if i < a.len() {
            assert((a + b)[i] == a[i]);
        } else {
            assert((a + b)[i] == b[i - a.len()]);
        }
    }
}

proof fn lemma_shorter(acts: Seq<Act>, path: Seq<Segment>, segment: Segment, patches: bool)
    requires
        within(acts, path.push(segment), patches),
    ensures
        within(acts, path, patches),
        forall|i: int|
            0 <= i < acts.len() ==> target(#[trigger] acts[i]).len() > path.len() && target(
                acts[i],
            )[path.len() as int] == segment,
{
    let longer = path.push(segment);
    assert forall|i: int| 0 <= i < acts.len() implies {
        &&& at_or_below(#[trigger] acts[i], path)
        &&& acts[i] is ArrayPatch ==> patches
        &&& target(acts[i]).len() > path.len()
        &&& target(acts[i])[path.len() as int] == segment
    } by {
        let t = target(acts[i]);
        assert(at_or_below(acts[i], longer));
        assert(t.take(longer.len() as int)[path.len() as int] == segment);
        assert(t.take(path.len() as int) =~= t.take(longer.len() as int).take(path.len() as int));
        assert(longer.take(path.len() as int) =~= path);
    }
}

proof fn lemma_property(path: Seq<Segment>, segment: Segment)
    ensures
        path.push(segment).take(path.len() as int) == path,
{
    assert(path.push(segment).take(path.len() as int) =~= path);
}

/// Whether a key belongs to one of two objects only.
spec fn in_one_only(old: Seq<(Seq<char>, Json)>, new: Seq<(Seq<char>, Json)>, key: Seq<char>) -> bool {
    string_map::has_key(old, key) != string_map::has_key(new, key)
}

/// Whether actions set or remove properties with keys that one of two objects has only.
spec fn on_lone_keys(
    acts: Seq<Act>,
    old: Seq<(Seq<char>, Json)>,
    new: Seq<(Seq<char>, Json)>,
    path: Seq<Segment>,
) -> bool {
    forall|i: int|
        0 <= i < acts.len() ==> {
            &&& target(#[trigger] acts[i]).len() == path.len() + 1
            &&& target(acts[i]).take(path.len() as int) == path
            &&& target(acts[i]).last() matches Segment::Key(key) && in_one_only(old, new, key)
            &&& !(acts[i] is ArrayPatch)
        }
}

spec fn lone(
    keys: Seq<Seq<char>>,
    old: Seq<(Seq<char>, Json)>,
    new: Seq<(Seq<char>, Json)>,
) -> bool {
    forall|i: int| 0 <= i < keys.len() ==> in_one_only(old, new, #[trigger] keys[i])
}

proof fn lemma_moves(
    old: Seq<(Seq<char>, Json)>,
    new: Seq<(Seq<char>, Json)>,
    path: Seq<Segment>,
    pool: Seq<Segment>,
    count: nat,
)
    requires
        string_map::sorted(old),
        string_map::sorted(new),
    ensures
        ({
            let moves = objects::moves(old, new, path, pool, count);
            &&& on_lone_keys(moves.acts, old, new, path)
            &&& lone(moves.removed, old, new)
            &&& lone(moves.added, old, new)
        }),
    decreases count,
{
    let removed = objects::removed_keys(old, new);
    let moves = objects::moves(old, new, path, pool, count);
    if count == 0 || count > removed.len() {
        let added = objects::added_keys(old, new);
        objects::lemma_selected(new, objects::occurring(old, false), new.len());
        assert forall|i: int| 0 <= i < added.len() implies in_one_only(
            old,
            new,
            #[trigger] added[i],
        ) by {
            assert(added.contains(added[i]));
        }
    } else {
        let before = objects::moves(old, new, path, pool, (count - 1) as nat);
        let key = removed[count - 1];
        lemma_moves(old, new, path, pool, (count - 1) as nat);
        objects::lemma_selected(old, objects::occurring(new, false), old.len());
        assert(removed.contains(key));
        objects::lemma_first_digest(
            before.added,
            new,
            digest::digest(string_map::lookup(old, key)),
            0,
        );
        assert(in_one_only(old, new, key));
        match objects::move_target(before, key, old, new, path, pool) {
            Some(at) => {
                assert(in_one_only(old, new, before.added[at]));
                lemma_property(path, Segment::Key(before.added[at]));
                assert forall|i: int| 0 <= i < moves.added.len() implies in_one_only(
                    old,
                    new,
                    #[trigger] moves.added[i],
                ) by {
                    let j = if i < at {
                        i
                    } else {
                        i + 1
                    };
                    assert(moves.added[i] == before.added[j]);
                }
                assert forall|i: int| 0 <= i < moves.acts.len() implies {
                    &&& target(#[trigger] moves.acts[i]).len() == path.len() + 1
                    &&& target(moves.acts[i]).take(path.len() as int) == path
                    &&& target(moves.acts[i]).last() matches Segment::Key(k) && in_one_only(
                        old,
                        new,
                        k,
                    )
                    &&& !(moves.acts[i] is ArrayPatch)
                } by {
                    if i < before.acts.len() {
                        assert(moves.acts[i] == before.acts[i]);
                    }
                }
            },
            None => {
                assert forall|i: int| 0 <= i < moves.removed.len() implies in_one_only(
                    old,
                    new,
                    #[trigger] moves.removed[i],
                ) by {
                    if i < before.removed.len() {
                        assert(moves.removed[i] == before.removed[i]);
                    }
                }
            },
        }
    }
}

proof fn lemma_copies(
    keys: Seq<Seq<char>>,
    old: Seq<(Seq<char>, Json)>,
    new: Seq<(Seq<char>, Json)>,
    path: Seq<Segment>,
    pool: Seq<Segment>,
    count: nat,
)
    requires
        lone(keys, old, new),
    ensures
        ({
            let copies = objects::copies(keys, old, new, path, pool, count);
            &&& on_lone_keys(copies.acts, old, new, path)
            &&& lone(copies.added, old, new)
        }),
    decreases count,
{
    if 0 < count <= keys.len() {
        let before = objects::copies(keys, old, new, path, pool, (count - 1) as nat);
        let copies = objects::copies(keys, old, new, path, pool, count);
        let key = keys[count - 1];
        lemma_copies(keys, old, new, path, pool, (count - 1) as nat);
        assert(in_one_only(old, new, key));
        lemma_property(path, Segment::Key(key));
        assert forall|i: int| 0 <= i < copies.acts.len() implies {
            &&& target(#[trigger] copies.acts[i]).len() == path.len() + 1
            &&& target(copies.acts[i]).take(path.len() as int) == path
            &&& target(copies.acts[i]).last() matches Segment::Key(k) && in_one_only(old, new, k)
            &&& !(copies.acts[i] is ArrayPatch)
        } by {
            if i < before.acts.len() {
                assert(copies.acts[i] == before.acts[i]);
            }
        }
        assert forall|i: int| 0 <= i < copies.added.len() implies in_one_only(
            old,
            new,
            #[trigger] copies.added[i],
        ) by {
            if i < before.added.len() {
                assert(copies.added[i] == before.added[i]);
            }
        }
    }
}

/// The actions of an object plan in front of those under common keys, and those behind them.
proof fn lemma_around(
    old: Seq<(Seq<char>, Json)>,
    new: Seq<(Seq<char>, Json)>,
    path: Seq<Segment>,
    pool: Seq<Segment>,
    patches: bool,
) -> (around: (Seq<Act>, Seq<Act>))
    requires
        string_map::sorted(old),
        string_map::sorted(new),
    ensures
        on_lone_keys(around.0, old, new, path),
        on_lone_keys(around.1, old, new, path),
        diff::object_acts(old, new, path, pool, patches) == around.0 + diff::entry_acts(
            old,
            new,
            path,
            pool,
            patches,
            old.len(),
        ) + around.1,
{
    let removed = objects::removed_keys(old, new);
    let moved = objects::moves(old, new, path, pool, removed.len());
    let copied = objects::copies(moved.added, old, new, path, pool, moved.added.len());
    let removes = objects::remove_acts(moved.removed, path);
    let adds = objects::add_acts(copied.added, new, path);
    lemma_moves(old, new, path, pool, removed.len());
    lemma_copies(moved.added, old, new, path, pool, moved.added.len());
    assert forall|i: int| 0 <= i < removes.len() implies {
        &&& target(#[trigger] removes[i]).len() == path.len() + 1
        &&& target(removes[i]).take(path.len() as int) == path
        &&& target(removes[i]).last() matches Segment::Key(k) && in_one_only(old, new, k)
        &&& !(removes[i] is ArrayPatch)
    } by {
        assert(in_one_only(old, new, moved.removed[i]));
        lemma_property(path, Segment::Key(moved.removed[i]));
    }
    assert forall|i: int| 0 <= i < adds.len() implies {
        &&& target(#[trigger] adds[i]).len() == path.len() + 1
        &&& target(adds[i]).take(path.len() as int) == path
        &&& target(adds[i]).last() matches Segment::Key(k) && in_one_only(old, new, k)
        &&& !(adds[i] is ArrayPatch)
    } by {
        assert(in_one_only(old, new, copied.added[i]));
        lemma_property(path, Segment::Key(copied.added[i]));
    }
    let first = moved.acts + removes + copied.acts;
    assert forall|i: int| 0 <= i < first.len() implies {
        &&& target(#[trigger] first[i]).len() == path.len() + 1
        &&& target(first[i]).take(path.len() as int) == path
        &&& target(first[i]).last() matches Segment::Key(k) && in_one_only(old, new, k)
        &&& !(first[i] is ArrayPatch)
    } by {
        if i < moved.acts.len() {
            assert(first[i] == moved.acts[i]);
        } else if i < moved.acts.len() + removes.len() {
            assert(first[i] == removes[i - moved.acts.len()]);
        } else {
            assert(first[i] == copied.acts[i - moved.acts.len() - removes.len()]);
        }
    }
    (first, adds)
}

proof fn lemma_lone_within(
    acts: Seq<Act>,
    old: Seq<(Seq<char>, Json)>,
    new: Seq<(Seq<char>, Json)>,
    path: Seq<Segment>,
    patches: bool,
)
    requires
        on_lone_keys(acts, old, new, path),
    ensures
        within(acts, path, patches),
{
}

proof fn lemma_items(
    old: Seq<Json>,
    new: Seq<Json>,
    path: Seq<Segment>,
    pool: Seq<Segment>,
    patches: bool,
    count: nat,
)
    requires
        count <= old.len(),
        count <= new.len(),
        forall|i: int| 0 <= i < old.len() ==> json::valid(#[trigger] old[i]),
        forall|i: int| 0 <= i < new.len() ==> json::valid(#[trigger] new[i]),
    ensures
        within(diff::item_acts(old, new, path, pool, patches, count), path, patches),
    decreases old, count,
{
    if count > 0 {
        let i = count - 1;
        let child = diff::element(path, i);
        lemma_items(old, new, path, pool, patches, i as nat);
        law_plans_stay_at_their_path(old[i], new[i], child, pool, patches);
        let acts = diff::diff(old[i], new[i], child, pool, patches);
        lemma_shorter(acts, path, Segment::Index(i), patches);
        lemma_together(
            diff::item_acts(old, new, path, pool, patches, i as nat),
            acts,
            path,
            patches,
        );
    }
}

proof fn lemma_entries(
    old: Seq<(Seq<char>, Json)>,
    new: Seq<(Seq<char>, Json)>,
    path: Seq<Segment>,
    pool: Seq<Segment>,
    patches: bool,
    count: nat,
)
    requires
        count <= old.len(),
        json::valid(Json::Object(old)),
        json::valid(Json::Object(new)),
    ensures
        within(diff::entry_acts(old, new, path, pool, patches, count), path, patches),
        forall|i: int|
            0 <= i < diff::entry_acts(old, new, path, pool, patches, count).len() ==> touches_changed(
                #[trigger] diff::entry_acts(old, new, path, pool, patches, count)[i],
                old,
                new,
                path,
            ),
    decreases old, count,
{
    let from = Json::Object(old);
    let to = Json::Object(new);
    assert(from->Object_0 == old && to->Object_0 == new);
    if count > 0 {
        let entry = old[count - 1];
        let before = diff::entry_acts(old, new, path, pool, patches, (count - 1) as nat);
        lemma_entries(old, new, path, pool, patches, (count - 1) as nat);
        if string_map::has_key(new, entry.0) {
            let value = string_map::lookup(new, entry.0);
            let child = objects::property(path, entry.0);
            string_map::lemma_slot_range(new, entry.0);
            string_map::lemma_slot_of(old, count - 1);
            assert(json::valid(new[string_map::slot(new, entry.0)].1));
            assert(json::valid(old[count - 1].1));
            assert(decreases_to!(old => old[count - 1]));
            assert(decreases_to!(entry => entry.1));
            law_plans_stay_at_their_path(entry.1, value, child, pool, patches);
            let acts = diff::diff(entry.1, value, child, pool, patches);
            lemma_shorter(acts, path, Segment::Key(entry.0), patches);
            lemma_together(before, acts, path, patches);
            let all = before + acts;
            assert(diff::entry_acts(old, new, path, pool, patches, count) == all);
            assert forall|i: int| 0 <= i < all.len() implies touches_changed(
                #[trigger] all[i],
                old,
                new,
                path,
            ) by {
                if i < before.len() {
                    assert(all[i] == before[i]);
                } else {
                    assert(all[i] == acts[i - before.len()]);
                    assert(!json::same(entry.1, value));
                }
            }
        }
    }
}

/// Whether an action touches a property whose value is not the same in two objects, or that only
/// one of them has.
pub open spec fn touches_changed(
    act: Act,
    old: Seq<(Seq<char>, Json)>,
    new: Seq<(Seq<char>, Json)>,
    path: Seq<Segment>,
) -> bool {
    &&& target(act).len() > path.len()
    &&& target(act).take(path.len() as int) == path
    &&& target(act)[path.len() as int] matches Segment::Key(key) && match (
        string_map::value_of(old, key),
        string_map::value_of(new, key),
    ) {
        (Some(a), Some(b)) => !json::same(a, b),
        (None, None) => false,
        _ => true,
    }
}

/// The plan that changes an object touches only properties that differ.
pub proof fn law_object_plans_touch_only_what_differs(
    old: Seq<(Seq<char>, Json)>,
    new: Seq<(Seq<char>, Json)>,
    path: Seq<Segment>,
    pool: Seq<Segment>,
    patches: bool,
    i: int,
)
    requires
        json::valid(Json::Object(old)),
        json::valid(Json::Object(new)),
        0 <= i < diff::object_acts(old, new, path, pool, patches).len(),
    ensures
        touches_changed(diff::object_acts(old, new, path, pool, patches)[i], old, new, path),
{
    let from = Json::Object(old);
    let to = Json::Object(new);
    assert(from->Object_0 == old && to->Object_0 == new);
    let (first, last) = lemma_around(old, new, path, pool, patches);
    let entries = diff::entry_acts(old, new, path, pool, patches, old.len());
    lemma_entries(old, new, path, pool, patches, old.len());
    let act = diff::object_acts(old, new, path, pool, patches)[i];
    if i < first.len() {
        assert(act == first[i]);
    } else if i < first.len() + entries.len() {
        assert(act == entries[i - first.len()]);
    } else {
        assert(act == last[i - first.len() - entries.len()]);
    }
}

/// A plan changes nothing but the value at its path, and patches arrays only where that is allowed.
pub proof fn law_plans_stay_at_their_path(
    from: Json,
    to: Json,
    path: Seq<Segment>,
    pool: Seq<Segment>,
    patches: bool,
)
    requires
        json::valid(from),
        json::valid(to),
    ensures
        within(diff::diff(from, to, path, pool, patches), path, patches),
    decreases from, 0nat,
{
    assert(path.take(path.len() as int) =~= path);
    if !json::same(from, to) {
        match (from, to) {
            (Json::Object(old), Json::Object(new)) => {
                assert(from->Object_0 == old && to->Object_0 == new);
                let (first, last) = lemma_around(old, new, path, pool, patches);
                let entries = diff::entry_acts(old, new, path, pool, patches, old.len());
                assert(decreases_to!(from => from->Object_0));
                lemma_entries(old, new, path, pool, patches, old.len());
                lemma_lone_within(first, old, new, path, patches);
                lemma_lone_within(last, old, new, path, patches);
                lemma_together(first, entries, path, patches);
                lemma_together(first + entries, last, path, patches);
            },
            (Json::Array(old), Json::Array(new)) => {
                assert(from->Array_0 == old && to->Array_0 == new);
                assert(decreases_to!(from => from->Array_0));
                let common = diff::shorter(old.len(), new.len());
                let items = diff::item_acts(old, new, path, pool, patches, common);
                let shrink = diff::shrink_acts(old.len(), common, path);
                let grow = diff::grow_acts(new, common, path);
                lemma_items(old, new, path, pool, patches, common);
                assert forall|i: int| 0 <= i < shrink.len() implies {
                    &&& at_or_below(#[trigger] shrink[i], path)
                    &&& shrink[i] is ArrayPatch ==> patches
                } by {
                    lemma_property(path, Segment::Index(old.len() - 1 - i));
                }
                assert forall|i: int| 0 <= i < grow.len() implies {
                    &&& at_or_below(#[trigger] grow[i], path)
                    &&& grow[i] is ArrayPatch ==> patches
                } by {
                    lemma_property(path, Segment::Index(common + i));
                }
                lemma_together(items, shrink, path, patches);
                lemma_together(items + shrink, grow, path, patches);
            },
            _ => {},
        }
    }
}

/// The actions, in their order, that touch a part of the value at a path.
pub open spec fn touching(acts: Seq<Act>, path: Seq<Segment>, segment: Segment) -> Seq<Act>
    decreases acts.len(),
{
    if acts.len() == 0 {
        Seq::empty()
    } else {
        let rest = touching(acts.drop_last(), path, segment);
        if at_or_below(acts.last(), path.push(segment)) {
            rest.push(acts.last())
        } else {
            rest
        }
    }
}

proof fn lemma_touching_parts(a: Seq<Act>, b: Seq<Act>, path: Seq<Segment>, segment: Segment)
    ensures
        touching(a + b, path, segment) == touching(a, path, segment) + touching(b, path, segment),
    decreases b.len(),
{
    if b.len() == 0 {
        assert(a + b =~= a);
        assert(touching(a, path, segment) + Seq::<Act>::empty() =~= touching(a, path, segment));
    } else {
        let rest = b.drop_last();
        lemma_touching_parts(a, rest, path, segment);
        assert((a + b).drop_last() =~= a + rest);
        assert((a + b).last() == b.last());
        assert(touching(a + b, path, segment) =~= touching(a, path, segment) + touching(b, path, segment));
    }
}

proof fn lemma_touching_all(acts: Seq<Act>, path: Seq<Segment>, segment: Segment)
    requires
        forall|i: int|
            0 <= i < acts.len() ==> at_or_below(
                #[trigger] acts[i],
                path.push(segment),
            ),
    ensures
        touching(acts, path, segment) == acts,
    decreases acts.len(),
{
    if acts.len() > 0 {
        let rest = acts.drop_last();
        assert forall|i: int| 0 <= i < rest.len() implies at_or_below(
            #[trigger] rest[i],
            path.push(segment),
        ) by {
            assert(rest[i] == acts[i]);
        }
        lemma_touching_all(rest, path, segment);
        assert(acts.last() == acts[acts.len() - 1]);
        assert(touching(acts, path, segment) =~= acts);
    }
}

proof fn lemma_touching_none(acts: Seq<Act>, path: Seq<Segment>, segment: Segment)
    requires
        forall|i: int|
            0 <= i < acts.len() ==> target(#[trigger] acts[i]).len() > path.len() && target(
                acts[i],
            )[path.len() as int] != segment,
    ensures
        touching(acts, path, segment) == Seq::<Act>::empty(),
    decreases acts.len(),
{
    if acts.len() > 0 {
        let rest = acts.drop_last();
        assert forall|i: int| 0 <= i < rest.len() implies target(#[trigger] rest[i]).len()
            > path.len() && target(rest[i])[path.len() as int] != segment by {
            assert(rest[i] == acts[i]);
        }
        lemma_touching_none(rest, path, segment);
        let last = acts.last();
        assert(last == acts[acts.len() - 1]);
        let child = path.push(segment);
        if at_or_below(last, child) {
            assert(target(last).take(child.len() as int)[path.len() as int] == segment);
        }
    }
}

proof fn lemma_touching_entries(
    old: Seq<(Seq<char>, Json)>,
    new: Seq<(Seq<char>, Json)>,
    at: int,
    path: Seq<Segment>,
    pool: Seq<Segment>,
    patches: bool,
    count: nat,
)
    requires
        json::valid(Json::Object(old)),
        json::valid(Json::Object(new)),
        0 <= at < old.len(),
        count <= old.len(),
        string_map::has_key(new, old[at].0),
    ensures
        touching(
            diff::entry_acts(old, new, path, pool, patches, count),
            path,
            Segment::Key(old[at].0),
        ) == if at < count {
            diff::diff(
                old[at].1,
                string_map::lookup(new, old[at].0),
                path.push(Segment::Key(old[at].0)),
                pool,
                patches,
            )
        } else {
            Seq::<Act>::empty()
        },
    decreases count,
{
    let from = Json::Object(old);
    let to = Json::Object(new);
    assert(from->Object_0 == old && to->Object_0 == new);
    let key = old[at].0;
    if count > 0 {
        let i = count - 1;
        let entry = old[i];
        lemma_touching_entries(old, new, at, path, pool, patches, i as nat);
        let before = diff::entry_acts(old, new, path, pool, patches, i as nat);
        if string_map::has_key(new, entry.0) {
            let value = string_map::lookup(new, entry.0);
            let child = path.push(Segment::Key(entry.0));
            string_map::lemma_slot_range(new, entry.0);
            assert(json::valid(new[string_map::slot(new, entry.0)].1));
            assert(json::valid(old[i].1));
            law_plans_stay_at_their_path(entry.1, value, child, pool, patches);
            let acts = diff::diff(entry.1, value, child, pool, patches);
            assert(diff::entry_acts(old, new, path, pool, patches, count) == before + acts);
            lemma_touching_parts(before, acts, path, Segment::Key(key));
            if i == at {
                lemma_touching_all(acts, path, Segment::Key(key));
                assert(Seq::<Act>::empty() + acts =~= acts);
            } else {
                string_map::lemma_slot_of(old, i);
                string_map::lemma_slot_of(old, at);
                assert(entry.0 != key);
                lemma_shorter(acts, path, Segment::Key(entry.0), patches);
                lemma_touching_none(acts, path, Segment::Key(key));
                let kept = touching(before, path, Segment::Key(key));
                assert(kept + Seq::<Act>::empty() =~= kept);
            }
        }
    }
}

/// In the plan that changes an object, what is done to a property that both objects have is the
/// plan for its values, whatever else changes.
pub proof fn law_common_properties_are_changed_by_their_own_plan(
    old: Seq<(Seq<char>, Json)>,
    new: Seq<(Seq<char>, Json)>,
    key: Seq<char>,
    path: Seq<Segment>,
    pool: Seq<Segment>,
    patches: bool,
)
    requires
        json::valid(Json::Object(old)),
        json::valid(Json::Object(new)),
        string_map::value_of(old, key) is Some,
        string_map::value_of(new, key) is Some,
    ensures
        touching(diff::object_acts(old, new, path, pool, patches), path, Segment::Key(key)) == diff::diff(
            string_map::value_of(old, key)->0,
            string_map::value_of(new, key)->0,
            path.push(Segment::Key(key)),
            pool,
            patches,
        ),
{
    let from = Json::Object(old);
    let to = Json::Object(new);
    assert(from->Object_0 == old && to->Object_0 == new);
    let (first, last) = lemma_around(old, new, path, pool, patches);
    let entries = diff::entry_acts(old, new, path, pool, patches, old.len());
    string_map::lemma_slot_range(old, key);
    let at = string_map::slot(old, key);
    assert(old[at].0 == key);
    lemma_touching_entries(old, new, at, path, pool, patches, old.len());
    lemma_touching_lone(first, old, new, path, key);
    lemma_touching_lone(last, old, new, path, key);
    lemma_touching_parts(first, entries, path, Segment::Key(key));
    lemma_touching_parts(first + entries, last, path, Segment::Key(key));
    let acts = touching(entries, path, Segment::Key(key));
    assert(Seq::<Act>::empty() + acts =~= acts);
    assert(acts + Seq::<Act>::empty() =~= acts);
}

proof fn lemma_touching_lone(
    acts: Seq<Act>,
    old: Seq<(Seq<char>, Json)>,
    new: Seq<(Seq<char>, Json)>,
    path: Seq<Segment>,
    key: Seq<char>,
)
    requires
        on_lone_keys(acts, old, new, path),
        !in_one_only(old, new, key),
    ensures
        touching(acts, path, Segment::Key(key)) == Seq::<Act>::empty(),
{
    assert forall|i: int| 0 <= i < acts.len() implies target(#[trigger] acts[i]).len() > path.len()
        && target(acts[i])[path.len() as int] != Segment::Key(key) by {
        assert(target(acts[i]).last() == target(acts[i])[path.len() as int]);
    }
    lemma_touching_none(acts, path, Segment::Key(key));
}

proof fn lemma_touching_items(
    old: Seq<Json>,
    new: Seq<Json>,
    at: int,
    path: Seq<Segment>,
    pool: Seq<Segment>,
    patches: bool,
    count: nat,
)
    requires
        forall|i: int| 0 <= i < old.len() ==> json::valid(#[trigger] old[i]),
        forall|i: int| 0 <= i < new.len() ==> json::valid(#[trigger] new[i]),
        0 <= at,
        count <= old.len(),
        count <= new.len(),
    ensures
        touching(
            diff::item_acts(old, new, path, pool, patches, count),
            path,
            Segment::Index(at),
        ) == if at < count {
            diff::diff(old[at], new[at], path.push(Segment::Index(at)), pool, patches)
        } else {
            Seq::<Act>::empty()
        },
    decreases count,
{
    let segment = Segment::Index(at);
    if count > 0 {
        let i = count - 1;
        lemma_touching_items(old, new, at, path, pool, patches, i as nat);
        let before = diff::item_acts(old, new, path, pool, patches, i as nat);
        let acts = diff::diff(old[i], new[i], path.push(Segment::Index(i)), pool, patches);
        assert(diff::item_acts(old, new, path, pool, patches, count) == before + acts);
        law_plans_stay_at_their_path(
            old[i],
            new[i],
            path.push(Segment::Index(i)),
            pool,
            patches,
        );
        lemma_touching_parts(before, acts, path, segment);
        if i == at {
            lemma_touching_all(acts, path, segment);
            assert(Seq::<Act>::empty() + acts =~= acts);
        } else {
            lemma_shorter(acts, path, Segment::Index(i), patches);
            lemma_touching_none(acts, path, segment);
            let kept = touching(before, path, segment);
            assert(kept + Seq::<Act>::empty() =~= kept);
        }
    }
}

/// In the plan that changes an array item by item, what is done at an index that both arrays have is
/// the plan for the items there, whatever else changes.
pub proof fn law_common_items_are_changed_by_their_own_plan(
    old: Seq<Json>,
    new: Seq<Json>,
    at: int,
    path: Seq<Segment>,
    pool: Seq<Segment>,
    patches: bool,
)
    requires
        json::valid(Json::Array(old)),
        json::valid(Json::Array(new)),
        0 <= at < old.len(),
        at < new.len(),
    ensures
        touching(
            diff::itemwise_acts(old, new, path, pool, patches),
            path,
            Segment::Index(at),
        ) == diff::diff(old[at], new[at], path.push(Segment::Index(at)), pool, patches),
{
    let from = Json::Array(old);
    let to = Json::Array(new);
    assert(from->Array_0 == old && to->Array_0 == new);
    let segment = Segment::Index(at);
    let common = diff::shorter(old.len(), new.len());
    let items = diff::item_acts(old, new, path, pool, patches, common);
    let shrink = diff::shrink_acts(old.len(), common, path);
    let grow = diff::grow_acts(new, common, path);
    lemma_touching_items(old, new, at, path, pool, patches, common);
    lemma_touching_none(shrink, path, segment);
    lemma_touching_none(grow, path, segment);
    lemma_touching_parts(items, shrink, path, segment);
    lemma_touching_parts(items + shrink, grow, path, segment);
    let acts = touching(items, path, segment);
    assert(acts + Seq::<Act>::empty() =~= acts);
}

} // verus!
