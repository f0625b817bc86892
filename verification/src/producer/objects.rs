//! Moves and copies between the properties of an object.

use vstd::prelude::*;

use crate::error::JsyncError;
use crate::json;
use crate::json::{Json, JsonValue};
use crate::message::action;
use crate::message::action::{Act, Action, PathSegment, Segment};
use crate::message::encoder;
use crate::message::json_cbor;
use crate::message::pool::ProducerPathSegmentPool;
use crate::producer::cost;
use crate::producer::digest;
use crate::producer::digest::ValueDigest;
use crate::string_map;
use crate::string_map::StringMap;

verus! {

/// The keys of the first `count` entries that meet a condition, in their order.
pub open spec fn selected<T>(
    entries: Seq<(Seq<char>, T)>,
    wanted: spec_fn(Seq<char>) -> bool,
    count: nat,
) -> Seq<Seq<char>>
    decreases count,
{
    if count == 0 || count > entries.len() {
        Seq::empty()
    } else {
        let before = selected(entries, wanted, (count - 1) as nat);
        if wanted(entries[count - 1].0) {
            before.push(entries[count - 1].0)
        } else {
            before
        }
    }
}

/// The condition that an object has, or does not have, a key.
pub open spec fn occurring(
    entries: Seq<(Seq<char>, Json)>,
    occurs: bool,
) -> spec_fn(Seq<char>) -> bool {
    |key: Seq<char>| string_map::has_key(entries, key) == occurs
}

/// The condition that two objects have the same value under a key.
pub open spec fn unchanged(
    old: Seq<(Seq<char>, Json)>,
    new: Seq<(Seq<char>, Json)>,
) -> spec_fn(Seq<char>) -> bool {
    |key: Seq<char>|
        string_map::has_key(new, key) && json::same(
            string_map::lookup(old, key),
            string_map::lookup(new, key),
        )
}

/// The keys that only the old object has.
pub open spec fn removed_keys(
    old: Seq<(Seq<char>, Json)>,
    new: Seq<(Seq<char>, Json)>,
) -> Seq<Seq<char>> {
    selected(old, occurring(new, false), old.len())
}

/// The keys that only the new object has.
pub open spec fn added_keys(
    old: Seq<(Seq<char>, Json)>,
    new: Seq<(Seq<char>, Json)>,
) -> Seq<Seq<char>> {
    selected(new, occurring(old, false), new.len())
}

/// The keys under which both objects have the same value.
pub open spec fn unchanged_keys(
    old: Seq<(Seq<char>, Json)>,
    new: Seq<(Seq<char>, Json)>,
) -> Seq<Seq<char>> {
    selected(old, unchanged(old, new), old.len())
}

/// The position of the first key, not in front of `from`, whose value has a digest.
pub open spec fn first_digest(
    keys: Seq<Seq<char>>,
    entries: Seq<(Seq<char>, Json)>,
    wanted: Seq<u8>,
    from: int,
) -> Option<int>
    decreases keys.len() - from,
{
    if from < 0 || from >= keys.len() {
        None
    } else if digest::digest(string_map::lookup(entries, keys[from])) == wanted {
        Some(from)
    } else {
        first_digest(keys, entries, wanted, from + 1)
    }
}

/// A position found by digest is one.
pub proof fn lemma_first_digest(
    keys: Seq<Seq<char>>,
    entries: Seq<(Seq<char>, Json)>,
    wanted: Seq<u8>,
    from: int,
)
    ensures
        first_digest(keys, entries, wanted, from) matches Some(at) ==> 0 <= at
            < keys.len(),
    decreases keys.len() - from,
{
    if 0 <= from < keys.len() {
        lemma_first_digest(keys, entries, wanted, from + 1);
    }
}

/// The path of a property.
pub open spec fn property(path: Seq<Segment>, key: Seq<char>) -> Seq<Segment> {
    path.push(Segment::Key(key))
}

/// Whether moving a value is cheaper than removing and adding it.
pub open spec fn move_is_cheaper(
    path: Seq<Segment>,
    key: Seq<char>,
    target: Seq<char>,
    value: Json,
    pool: Seq<Segment>,
) -> bool {
    cost::plan_cost(
        seq![Act::Move { from: property(path, key), path: property(path, target) }],
        pool,
    ) < cost::plan_cost(
        seq![
            Act::Remove { path: property(path, key) },
            Act::Add { path: property(path, target), value },
        ],
        pool,
    )
}

/// Whether copying a value is cheaper than adding it.
pub open spec fn copy_is_cheaper(
    path: Seq<Segment>,
    source: Seq<char>,
    key: Seq<char>,
    value: Json,
    pool: Seq<Segment>,
) -> bool {
    cost::plan_cost(
        seq![Act::Copy { from: property(path, source), path: property(path, key) }],
        pool,
    ) < cost::plan_cost(seq![Act::Add { path: property(path, key), value }], pool)
}

/// What moving values to new keys leaves.
#[verifier::ext_equal]
pub struct Moves {
    /// The actions that move values.
    pub acts: Seq<Act>,
    /// The keys that are still to be removed.
    pub removed: Seq<Seq<char>>,
    /// The keys that are still to be added.
    pub added: Seq<Seq<char>>,
}

/// The moves of the values under the first `count` removed keys. A value is moved to the first
/// added key whose value has the same digest, provided that the values are the same and moving is
/// cheaper.
pub open spec fn moves(
    old: Seq<(Seq<char>, Json)>,
    new: Seq<(Seq<char>, Json)>,
    path: Seq<Segment>,
    pool: Seq<Segment>,
    count: nat,
) -> Moves
    decreases count,
{
    let removed = removed_keys(old, new);
    if count == 0 || count > removed.len() {
        Moves { acts: Seq::empty(), removed: Seq::empty(), added: added_keys(old, new) }
    } else {
        move_one(moves(old, new, path, pool, (count - 1) as nat), removed[count - 1], old, new, path, pool)
    }
}

/// The added key to which the value under a removed key is moved, as its position.
pub open spec fn move_target(
    before: Moves,
    key: Seq<char>,
    old: Seq<(Seq<char>, Json)>,
    new: Seq<(Seq<char>, Json)>,
    path: Seq<Segment>,
    pool: Seq<Segment>,
) -> Option<int> {
    let value = string_map::lookup(old, key);
    match first_digest(before.added, new, digest::digest(value), 0) {
        Some(at) => {
            let target = before.added[at];
            let moved = string_map::lookup(new, target);
            if json::same(value, moved) && move_is_cheaper(path, key, target, moved, pool) {
                Some(at)
            } else {
                None
            }
        },
        None => None,
    }
}

/// The moves with that of the value under one more key.
pub open spec fn move_one(
    before: Moves,
    key: Seq<char>,
    old: Seq<(Seq<char>, Json)>,
    new: Seq<(Seq<char>, Json)>,
    path: Seq<Segment>,
    pool: Seq<Segment>,
) -> Moves {
    match move_target(before, key, old, new, path, pool) {
        Some(at) => Moves {
            acts: before.acts.push(
                Act::Move { from: property(path, key), path: property(path, before.added[at]) },
            ),
            removed: before.removed,
            added: before.added.remove(at),
        },
        None => Moves { removed: before.removed.push(key), ..before },
    }
}

/// What copying values to new keys leaves.
#[verifier::ext_equal]
pub struct Copies {
    /// The actions that copy values.
    pub acts: Seq<Act>,
    /// The keys that are still to be added.
    pub added: Seq<Seq<char>>,
}

/// The copies of values to the first `count` of some added keys. A value is copied from the first
/// key under which nothing has changed and whose value has the same digest, provided that the
/// values are the same and copying is cheaper.
pub open spec fn copies(
    added: Seq<Seq<char>>,
    old: Seq<(Seq<char>, Json)>,
    new: Seq<(Seq<char>, Json)>,
    path: Seq<Segment>,
    pool: Seq<Segment>,
    count: nat,
) -> Copies
    decreases count,
{
    if count == 0 || count > added.len() {
        Copies { acts: Seq::empty(), added: Seq::empty() }
    } else {
        copy_one(
            copies(added, old, new, path, pool, (count - 1) as nat),
            added[count - 1],
            old,
            new,
            path,
            pool,
        )
    }
}

/// The key from which the value under an added key is copied.
pub open spec fn copy_source(
    key: Seq<char>,
    old: Seq<(Seq<char>, Json)>,
    new: Seq<(Seq<char>, Json)>,
    path: Seq<Segment>,
    pool: Seq<Segment>,
) -> Option<Seq<char>> {
    let value = string_map::lookup(new, key);
    let sources = unchanged_keys(old, new);
    match first_digest(sources, new, digest::digest(value), 0) {
        Some(at) => if json::same(value, string_map::lookup(new, sources[at])) && copy_is_cheaper(
            path,
            sources[at],
            key,
            value,
            pool,
        ) {
            Some(sources[at])
        } else {
            None
        },
        None => None,
    }
}

/// The copies with that of the value under one more key.
pub open spec fn copy_one(
    before: Copies,
    key: Seq<char>,
    old: Seq<(Seq<char>, Json)>,
    new: Seq<(Seq<char>, Json)>,
    path: Seq<Segment>,
    pool: Seq<Segment>,
) -> Copies {
    match copy_source(key, old, new, path, pool) {
        Some(source) => Copies {
            acts: before.acts.push(
                Act::Copy { from: property(path, source), path: property(path, key) },
            ),
            added: before.added,
        },
        None => Copies { added: before.added.push(key), ..before },
    }
}

/// The actions that remove properties.
pub open spec fn remove_acts(keys: Seq<Seq<char>>, path: Seq<Segment>) -> Seq<Act> {
    Seq::new(keys.len(), |i: int| Act::Remove { path: property(path, keys[i]) })
}

/// The actions that add properties.
pub open spec fn add_acts(
    keys: Seq<Seq<char>>,
    new: Seq<(Seq<char>, Json)>,
    path: Seq<Segment>,
) -> Seq<Act> {
    Seq::new(
        keys.len(),
        |i: int|
            Act::Add { path: property(path, keys[i]), value: string_map::lookup(new, keys[i]) },
    )
}

/// The keys of some entries that meet a condition.
pub proof fn lemma_selected<T>(
    entries: Seq<(Seq<char>, T)>,
    wanted: spec_fn(Seq<char>) -> bool,
    count: nat,
)
    requires
        string_map::sorted(entries),
        count <= entries.len(),
    ensures
        selected(entries, wanted, count).no_duplicates(),
        forall|key: Seq<char>| #[trigger]
            selected(entries, wanted, count).contains(key) <==> wanted(key) && string_map::has_key(
                entries,
                key,
            ) && string_map::slot(entries, key) < count,
    decreases count,
{
    let keys = selected(entries, wanted, count);
    if count == 0 {
        assert forall|key: Seq<char>| #[trigger] keys.contains(key) implies wanted(key)
            && string_map::has_key(entries, key) && string_map::slot(entries, key) < count by {
        }
        assert forall|key: Seq<char>|
            wanted(key) && string_map::has_key(entries, key) && string_map::slot(entries, key)
                < count implies #[trigger] keys.contains(key) by {
            string_map::lemma_slot_range(entries, key);
        }
    } else {
        let before = selected(entries, wanted, (count - 1) as nat);
        let last = entries[count - 1].0;
        lemma_selected(entries, wanted, (count - 1) as nat);
        string_map::lemma_slot_of(entries, count - 1);
        if wanted(last) {
            assert(!before.contains(last));
            assert(keys == before.push(last));
            assert(keys[keys.len() - 1] == last);
            assert forall|key: Seq<char>| #[trigger]
                keys.contains(key) == (key == last || before.contains(key)) by {
                if before.contains(key) {
                    let i = choose|i: int| 0 <= i < before.len() && before[i] == key;
                    assert(keys[i] == key);
                }
            }
        }
        assert forall|key: Seq<char>| #[trigger] keys.contains(key) <==> wanted(key)
            && string_map::has_key(entries, key) && string_map::slot(entries, key) < count by {
            string_map::lemma_slot_range(entries, key);
            assert(before.contains(key) <==> wanted(key) && string_map::has_key(entries, key)
                && string_map::slot(entries, key) < count - 1);
        }
    }
}

/// The models of keys.
pub open spec fn key_views(keys: Seq<String>) -> Seq<Seq<char>> {
    Seq::new(keys.len(), |i: int| keys[i]@)
}

/// Collects the keys of an object that another one has, or does not have.
fn keys_occurring(
    map: &StringMap<JsonValue>,
    other: &StringMap<JsonValue>,
    occurs: bool,
) -> (keys: Vec<String>)
    ensures
        ({
            let entries = json::entry_views(map.entries());
            let others = json::entry_views(other.entries());
            key_views(keys@) == selected(entries, occurring(others, occurs), entries.len())
        }),
        map.well_formed(),
{
    let ghost entries = json::entry_views(map.entries());
    let ghost others = json::entry_views(other.entries());
    let count: usize = map.len();
    let mut keys: Vec<String> = Vec::new();
    let mut i: usize = 0;
    assert(key_views(keys@) =~= Seq::empty());
    while i < count
        invariant
            i <= count == entries.len(),
            entries == json::entry_views(map.entries()),
            others == json::entry_views(other.entries()),
            key_views(keys@) == selected(entries, occurring(others, occurs), i as nat),
        decreases count - i,
    {
        let key: &String = map.key_at(i);
        let ghost before = key_views(keys@);
        proof {
            json::lemma_has_key(other.entries(), key@);
            assert(entries[i as int].0 == key@);
        }
        if other.contains_key(key.as_str()) == occurs {
            keys.push(key.clone());
            assert(key_views(keys@) =~= before.push(key@));
        }
        i = i + 1;
    }
    keys
}

/// Collects the keys that only the old object has, in key order.
pub(crate) fn sorted_removed_keys(
    old: &StringMap<JsonValue>,
    new: &StringMap<JsonValue>,
) -> (keys: Vec<String>)
    ensures
        key_views(keys@) == removed_keys(
            json::entry_views(old.entries()),
            json::entry_views(new.entries()),
        ),
        old.well_formed(),
{
    keys_occurring(old, new, false)
}

/// Collects the keys that only the new object has, in key order.
pub(crate) fn sorted_added_keys(
    old: &StringMap<JsonValue>,
    new: &StringMap<JsonValue>,
) -> (keys: Vec<String>)
    ensures
        key_views(keys@) == added_keys(
            json::entry_views(old.entries()),
            json::entry_views(new.entries()),
        ),
        new.well_formed(),
{
    keys_occurring(new, old, false)
}

/// A key with the digest of the value under it.
pub(crate) struct DigestedKey {
    key: String,
    digest: ValueDigest,
}

/// Whether digested keys are some keys of an object, with the digests of the values under them.
pub(crate) closed spec fn indexed(
    index: Seq<DigestedKey>,
    keys: Seq<Seq<char>>,
    entries: Seq<(Seq<char>, Json)>,
) -> bool {
    &&& index.len() == keys.len()
    &&& forall|i: int|
        0 <= i < index.len() ==> (#[trigger] index[i]).key@ == keys[i] && index[i].digest@
            == digest::digest(string_map::lookup(entries, keys[i])) && string_map::has_key(
            entries,
            keys[i],
        )
}

/// Whether no value of an object holds a number that may not stand in a message.
pub open spec fn safe_entries(entries: Seq<(Seq<char>, Json)>) -> bool {
    forall|i: int|
        0 <= i < entries.len() ==> json_cbor::first_unsafe((#[trigger] entries[i]).1) is None
}

/// Finds the value under a key that occurs.
fn value_under<'a>(map: &'a StringMap<JsonValue>, key: &str) -> (value: &'a JsonValue)
    requires
        string_map::has_key(json::entry_views(map.entries()), key@),
    ensures
        value@ == string_map::lookup(json::entry_views(map.entries()), key@),
        safe_entries(json::entry_views(map.entries())) ==> json_cbor::first_unsafe(value@) is None,
{
    proof {
        let entries = json::entry_views(map.entries());
        json::lemma_has_key(map.entries(), key@);
        string_map::lemma_slot_range(entries, key@);
        assert(entries[string_map::slot(entries, key@)].1 == string_map::lookup(entries, key@));
    }
    map.get(key).unwrap()
}

/// Digests the values under added keys.
pub(crate) fn index_added_values_by_digest(
    added: Vec<String>,
    new: &StringMap<JsonValue>,
) -> (result: Result<Vec<DigestedKey>, JsyncError>)
    requires
        safe_entries(json::entry_views(new.entries())),
        forall|i: int|
            0 <= i < added@.len() ==> string_map::has_key(
                json::entry_views(new.entries()),
                #[trigger] key_views(added@)[i],
            ),
    ensures
        result matches Ok(index) && indexed(
            index@,
            key_views(added@),
            json::entry_views(new.entries()),
        ),
{
    let ghost entries = json::entry_views(new.entries());
    let ghost keys = key_views(added@);
    let mut index: Vec<DigestedKey> = Vec::new();
    let mut i: usize = 0;
    while i < added.len()
        invariant
            i <= added@.len() == keys.len(),
            keys == key_views(added@),
            entries == json::entry_views(new.entries()),
            safe_entries(entries),
            forall|j: int|
                0 <= j < added@.len() ==> string_map::has_key(entries, #[trigger] keys[j]),
            indexed(index@, keys.take(i as int), entries),
        decreases added@.len() - i,
    {
        assert(keys[i as int] == added@[i as int]@);
        let digest = match digest::digest_value(value_under(new, added[i].as_str())) {
            Ok(digest) => digest,
            Err(e) => return Err(e),
        };
        let ghost before = index@;
        index.push(DigestedKey { key: added[i].clone(), digest });
        i = i + 1;
        proof {
            let taken = keys.take(i as int);
            assert forall|j: int| 0 <= j < index@.len() implies (#[trigger] index@[j]).key@
                == taken[j] && index@[j].digest@ == digest::digest(
                string_map::lookup(entries, taken[j]),
            ) && string_map::has_key(entries, taken[j]) by {
                if j < before.len() {
                    assert(before[j].key@ == keys.take(i - 1)[j]);
                }
            }
        }
    }
    assert(keys.take(i as int) =~= keys);
    Ok(index)
}

/// Digests the values that are the same in both objects.
pub(crate) fn index_unchanged_values_by_digest(
    old: &StringMap<JsonValue>,
    new: &StringMap<JsonValue>,
) -> (result: Result<Vec<DigestedKey>, JsyncError>)
    requires
        safe_entries(json::entry_views(old.entries())),
        safe_entries(json::entry_views(new.entries())),
    ensures
        ({
            let from = json::entry_views(old.entries());
            let to = json::entry_views(new.entries());
            result matches Ok(index) && indexed(index@, unchanged_keys(from, to), to)
        }),
{
    let ghost from = json::entry_views(old.entries());
    let ghost to = json::entry_views(new.entries());
    let ghost wanted = unchanged(from, to);
    let count: usize = old.len();
    let mut index: Vec<DigestedKey> = Vec::new();
    let mut i: usize = 0;
    while i < count
        invariant
            i <= count == from.len(),
            from == json::entry_views(old.entries()),
            to == json::entry_views(new.entries()),
            old.well_formed(),
            safe_entries(from),
            safe_entries(to),
            wanted == unchanged(from, to),
            indexed(index@, selected(from, wanted, i as nat), to),
        decreases count - i,
    {
        let key: &String = old.key_at(i);
        let value: &JsonValue = old.value_at(i);
        let ghost before = selected(from, wanted, i as nat);
        proof {
            assert(from[i as int] == (key@, value@));
            string_map::lemma_slot_of(old.entries(), i as int);
            json::lemma_has_key(old.entries(), key@);
            json::lemma_has_key(new.entries(), key@);
        }
        let other: Option<&JsonValue> = new.get(key.as_str());
        if let Some(current) = other {
            proof {
                string_map::lemma_slot_range(to, key@);
                assert(to[string_map::slot(to, key@)].1 == current@);
            }
            let old_digest = match digest::digest_value(value) {
                Ok(digest) => digest,
                Err(e) => return Err(e),
            };
            let new_digest = match digest::digest_value(current) {
                Ok(digest) => digest,
                Err(e) => return Err(e),
            };
            proof {
                if json::same(value@, current@) {
                    digest::law_equal_values_have_equal_digests(value@, current@);
                }
            }
            let same_digests: bool = digest::same_digest(&old_digest, &new_digest);
            if same_digests && json::same_value(value, current) {
                let ghost earlier = index@;
                index.push(DigestedKey { key: key.clone(), digest: new_digest });
                proof {
                    let keys = selected(from, wanted, i as nat + 1);
                    assert(keys == before.push(key@));
                    assert forall|j: int| 0 <= j < index@.len() implies (#[trigger] index@[j]).key@
                        == keys[j] && index@[j].digest@ == digest::digest(
                        string_map::lookup(to, keys[j]),
                    ) && string_map::has_key(to, keys[j]) by {
                        if j < earlier.len() {
                            assert(earlier[j].key@ == before[j]);
                        }
                    }
                }
            }
        }
        i = i + 1;
    }
    Ok(index)
}

/// Finds the first key whose value has a digest.
fn find_digest(
    index: &Vec<DigestedKey>,
    wanted: &ValueDigest,
    Ghost(keys): Ghost<Seq<Seq<char>>>,
    Ghost(entries): Ghost<Seq<(Seq<char>, Json)>>,
) -> (found: Option<usize>)
    requires
        indexed(index@, keys, entries),
    ensures
        match found {
            Some(at) => first_digest(keys, entries, wanted@, 0) == Some(at as int) && at
                < index@.len(),
            None => first_digest(keys, entries, wanted@, 0) is None,
        },
{
    let mut i: usize = 0;
    while i < index.len()
        invariant
            i <= index@.len(),
            indexed(index@, keys, entries),
            first_digest(keys, entries, wanted@, i as int) == first_digest(
                keys,
                entries,
                wanted@,
                0,
            ),
        decreases index@.len() - i,
    {
        assert(index@[i as int].key@ == keys[i as int]);
        if digest::same_digest(&index[i].digest, wanted) {
            return Some(i);
        }
        i = i + 1;
    }
    None
}

/// The path of a property.
fn property_path(path: &[PathSegment], key: &String) -> (target: Vec<PathSegment>)
    ensures
        action::path_view(target@) == property(action::path_view(path@), key@),
{
    action::child_path(path, PathSegment::Key(key.clone()))
}

/// Decides whether moving a value is cheaper than removing and adding it.
fn decide_move(
    path: &[PathSegment],
    key: &String,
    target: &String,
    value: &JsonValue,
    path_segment_pool: &ProducerPathSegmentPool,
) -> (result: Result<bool, JsyncError>)
    requires
        json_cbor::first_unsafe(value@) is None,
    ensures
        result matches Ok(cheaper) && cheaper == move_is_cheaper(
            action::path_view(path@),
            key@,
            target@,
            value@,
            path_segment_pool@,
        ),
{
    let ghost at = action::path_view(path@);
    let moving = cost::single_plan(
        Action::Move { from: property_path(path, key), path: property_path(path, target) },
        path_segment_pool,
    );
    let mut fallback: Vec<Action> = Vec::new();
    fallback.push(Action::Remove { path: property_path(path, key) });
    fallback.push(Action::Add { path: property_path(path, target), value: value.clone() });
    assert(action::action_views(fallback@) =~= seq![
        Act::Remove { path: property(at, key@) },
        Act::Add { path: property(at, target@), value: value@ },
    ]);
    match (moving, cost::safe_plan(fallback, path_segment_pool)) {
        (Ok(moving), Ok(fallback)) => Ok(moving.cost < fallback.cost),
        (Err(e), _) => Err(e),
        (_, Err(e)) => Err(e),
    }
}

/// Decides whether copying a value is cheaper than adding it.
fn decide_copy(
    path: &[PathSegment],
    source: &String,
    key: &String,
    value: &JsonValue,
    path_segment_pool: &ProducerPathSegmentPool,
) -> (result: Result<bool, JsyncError>)
    requires
        json_cbor::first_unsafe(value@) is None,
    ensures
        result matches Ok(cheaper) && cheaper == copy_is_cheaper(
            action::path_view(path@),
            source@,
            key@,
            value@,
            path_segment_pool@,
        ),
{
    let copying = cost::single_plan(
        Action::Copy { from: property_path(path, source), path: property_path(path, key) },
        path_segment_pool,
    );
    let fallback = cost::single_plan(
        Action::Add { path: property_path(path, key), value: value.clone() },
        path_segment_pool,
    );
    match (copying, fallback) {
        (Ok(copying), Ok(fallback)) => Ok(copying.cost < fallback.cost),
        (Err(e), _) => Err(e),
        (_, Err(e)) => Err(e),
    }
}

/// The keys that are left after moving or copying values, with the actions that do so.
pub(crate) struct Extracted {
    pub(crate) actions: Vec<Action>,
    pub(crate) removed: Vec<String>,
    pub(crate) added: Vec<DigestedKey>,
}

/// Finds the added key to which the value under a removed key is moved.
fn find_move_target(
    added: &Vec<DigestedKey>,
    key: &String,
    old: &StringMap<JsonValue>,
    new: &StringMap<JsonValue>,
    path: &[PathSegment],
    path_segment_pool: &ProducerPathSegmentPool,
    Ghost(before): Ghost<Moves>,
) -> (result: Result<Option<usize>, JsyncError>)
    requires
        safe_entries(json::entry_views(old.entries())),
        safe_entries(json::entry_views(new.entries())),
        string_map::has_key(json::entry_views(old.entries()), key@),
        indexed(added@, before.added, json::entry_views(new.entries())),
    ensures
        ({
            let expected = move_target(
                before,
                key@,
                json::entry_views(old.entries()),
                json::entry_views(new.entries()),
                action::path_view(path@),
                path_segment_pool@,
            );
            result matches Ok(found) && match found {
                Some(at) => expected == Some(at as int) && at < added@.len(),
                None => expected is None,
            }
        }),
{
    let ghost to = json::entry_views(new.entries());
    let value: &JsonValue = value_under(old, key.as_str());
    let old_digest = match digest::digest_value(value) {
        Ok(digest) => digest,
        Err(e) => return Err(e),
    };
    match find_digest(added, &old_digest, Ghost(before.added), Ghost(to)) {
        Some(at) => {
            let target: &String = &added[at].key;
            assert(added@[at as int].key@ == before.added[at as int]);
            let moved: &JsonValue = value_under(new, target.as_str());
            if !json::same_value(value, moved) {
                return Ok(None);
            }
            match decide_move(path, key, target, moved, path_segment_pool) {
                Ok(true) => Ok(Some(at)),
                Ok(false) => Ok(None),
                Err(e) => Err(e),
            }
        },
        None => Ok(None),
    }
}

/// Moves the values of removed keys to added keys, where that is cheaper.
pub(crate) fn extract_move_actions(
    removed: Vec<String>,
    added: Vec<DigestedKey>,
    old: &StringMap<JsonValue>,
    new: &StringMap<JsonValue>,
    path: &[PathSegment],
    path_segment_pool: &ProducerPathSegmentPool,
) -> (result: Result<Extracted, JsyncError>)
    requires
        safe_entries(json::entry_views(old.entries())),
        safe_entries(json::entry_views(new.entries())),
        string_map::sorted(json::entry_views(old.entries())),
        key_views(removed@) == removed_keys(
            json::entry_views(old.entries()),
            json::entry_views(new.entries()),
        ),
        indexed(
            added@,
            added_keys(json::entry_views(old.entries()), json::entry_views(new.entries())),
            json::entry_views(new.entries()),
        ),
    ensures
        ({
            let to = json::entry_views(new.entries());
            let expected = moves(
                json::entry_views(old.entries()),
                to,
                action::path_view(path@),
                path_segment_pool@,
                removed@.len(),
            );
            result matches Ok(found) && {
                &&& action::action_views(found.actions@) == expected.acts
                &&& encoder::all_safe(expected.acts)
                &&& key_views(found.removed@) == expected.removed
                &&& indexed(found.added@, expected.added, to)
            }
        }),
{
    let ghost from = json::entry_views(old.entries());
    let ghost to = json::entry_views(new.entries());
    let ghost at_path = action::path_view(path@);
    let ghost pool = path_segment_pool@;
    let ghost keys = key_views(removed@);
    let mut move_actions: Vec<Action> = Vec::new();
    let mut remaining_removed: Vec<String> = Vec::new();
    let mut remaining_added: Vec<DigestedKey> = added;
    let mut i: usize = 0;
    proof {
        lemma_selected(from, occurring(to, false), from.len());
        assert(action::action_views(move_actions@) =~= Seq::empty());
        assert(key_views(remaining_removed@) =~= Seq::empty());
    }
    while i < removed.len()
        invariant
            i <= removed@.len(),
            from == json::entry_views(old.entries()),
            to == json::entry_views(new.entries()),
            safe_entries(from),
            safe_entries(to),
            at_path == action::path_view(path@),
            pool == path_segment_pool@,
            keys == key_views(removed@),
            keys == removed_keys(from, to),
            forall|key: Seq<char>| #[trigger]
                keys.contains(key) ==> string_map::has_key(from, key),
            action::action_views(move_actions@) == moves(from, to, at_path, pool, i as nat).acts,
            encoder::all_safe(action::action_views(move_actions@)),
            key_views(remaining_removed@) == moves(from, to, at_path, pool, i as nat).removed,
            indexed(remaining_added@, moves(from, to, at_path, pool, i as nat).added, to),
        decreases removed@.len() - i,
    {
        let key: &String = &removed[i];
        let ghost before = moves(from, to, at_path, pool, i as nat);
        let ghost after = moves(from, to, at_path, pool, i as nat + 1);
        assert(keys[i as int] == key@);
        assert(keys.contains(key@));
        assert(after == move_one(before, key@, from, to, at_path, pool));
        let found = find_move_target(
            &remaining_added,
            key,
            old,
            new,
            path,
            path_segment_pool,
            Ghost(before),
        );
        let target = match found {
            Ok(target) => target,
            Err(e) => return Err(e),
        };
        match target {
            Some(at) => {
                let ghost earlier = remaining_added@;
                let ghost acts = action::action_views(move_actions@);
                let taken: DigestedKey = remaining_added.remove(at);
                assert(earlier[at as int].key@ == before.added[at as int]);
                let move_action = Action::Move {
                    from: property_path(path, key),
                    path: property_path(path, &taken.key),
                };
                move_actions.push(move_action);
                proof {
                    assert(action::action_views(move_actions@) =~= acts.push(move_action@));
                    assert forall|j: int| 0 <= j < remaining_added@.len() implies (
                    #[trigger] remaining_added@[j]).key@ == after.added[j]
                        && remaining_added@[j].digest@ == digest::digest(
                        string_map::lookup(to, after.added[j]),
                    ) && string_map::has_key(to, after.added[j]) by {
                        let k = if j < at {
                            j
                        } else {
                            j + 1
                        };
                        assert(remaining_added@[j] == earlier[k]);
                        assert(after.added[j] == before.added[k]);
                    }
                }
            },
            None => {
                let ghost kept = key_views(remaining_removed@);
                remaining_removed.push(key.clone());
                assert(key_views(remaining_removed@) =~= kept.push(key@));
            },
        }
        i = i + 1;
    }
    Ok(Extracted { actions: move_actions, removed: remaining_removed, added: remaining_added })
}

/// Copies unchanged values to added keys, where that is cheaper. What is left are the keys that
/// are still to be added.
pub(crate) fn extract_copy_actions(
    added: Vec<DigestedKey>,
    unchanged_by_digest: &Vec<DigestedKey>,
    new: &StringMap<JsonValue>,
    path: &[PathSegment],
    path_segment_pool: &ProducerPathSegmentPool,
    Ghost(keys): Ghost<Seq<Seq<char>>>,
    Ghost(from): Ghost<Seq<(Seq<char>, Json)>>,
) -> (result: Result<(Vec<Action>, Vec<String>), JsyncError>)
    requires
        safe_entries(json::entry_views(new.entries())),
        indexed(added@, keys, json::entry_views(new.entries())),
        indexed(
            unchanged_by_digest@,
            unchanged_keys(from, json::entry_views(new.entries())),
            json::entry_views(new.entries()),
        ),
    ensures
        ({
            let to = json::entry_views(new.entries());
            let expected = copies(
                keys,
                from,
                to,
                action::path_view(path@),
                path_segment_pool@,
                keys.len(),
            );
            result matches Ok(found) && {
                &&& action::action_views(found.0@) == expected.acts
                &&& encoder::all_safe(expected.acts)
                &&& key_views(found.1@) == expected.added
                &&& forall|i: int|
                    0 <= i < expected.added.len() ==> string_map::has_key(
                        to,
                        #[trigger] expected.added[i],
                    )
            }
        }),
{
    let ghost to = json::entry_views(new.entries());
    let ghost at_path = action::path_view(path@);
    let ghost pool = path_segment_pool@;
    let ghost sources = unchanged_keys(from, to);
    let mut copy_actions: Vec<Action> = Vec::new();
    let mut remaining_added: Vec<String> = Vec::new();
    let mut i: usize = 0;
    proof {
        assert(action::action_views(copy_actions@) =~= Seq::empty());
        assert(key_views(remaining_added@) =~= Seq::empty());
    }
    while i < added.len()
        invariant
            i <= added@.len() == keys.len(),
            to == json::entry_views(new.entries()),
            safe_entries(to),
            at_path == action::path_view(path@),
            pool == path_segment_pool@,
            sources == unchanged_keys(from, to),
            indexed(added@, keys, to),
            indexed(unchanged_by_digest@, sources, to),
            action::action_views(copy_actions@) == copies(
                keys,
                from,
                to,
                at_path,
                pool,
                i as nat,
            ).acts,
            encoder::all_safe(action::action_views(copy_actions@)),
            key_views(remaining_added@) == copies(keys, from, to, at_path, pool, i as nat).added,
            forall|j: int|
                0 <= j < remaining_added@.len() ==> string_map::has_key(
                    to,
                    #[trigger] key_views(remaining_added@)[j],
                ),
        decreases added@.len() - i,
    {
        let key: &String = &added[i].key;
        let ghost before = copies(keys, from, to, at_path, pool, i as nat);
        let ghost after = copies(keys, from, to, at_path, pool, i as nat + 1);
        assert(added@[i as int].key@ == keys[i as int]);
        assert(after == copy_one(before, key@, from, to, at_path, pool));
        let value: &JsonValue = value_under(new, key.as_str());
        let found = find_digest(
            unchanged_by_digest,
            &added[i].digest,
            Ghost(sources),
            Ghost(to),
        );
        let mut source: Option<usize> = None;
        if let Some(at) = found {
            assert(unchanged_by_digest@[at as int].key@ == sources[at as int]);
            let candidate: &String = &unchanged_by_digest[at].key;
            if json::same_value(value, value_under(new, candidate.as_str())) {
                match decide_copy(path, candidate, key, value, path_segment_pool) {
                    Ok(true) => {
                        source = Some(at);
                    },
                    Ok(false) => {},
                    Err(e) => return Err(e),
                }
            }
        }
        assert(match source {
            Some(at) => copy_source(key@, from, to, at_path, pool) == Some(sources[at as int])
                && at < sources.len(),
            None => copy_source(key@, from, to, at_path, pool) is None,
        });
        match source {
            Some(at) => {
                let ghost acts = action::action_views(copy_actions@);
                assert(unchanged_by_digest@[at as int].key@ == sources[at as int]);
                let copy_action = Action::Copy {
                    from: property_path(path, &unchanged_by_digest[at].key),
                    path: property_path(path, key),
                };
                copy_actions.push(copy_action);
                assert(action::action_views(copy_actions@) =~= acts.push(copy_action@));
            },
            None => {
                let ghost kept = key_views(remaining_added@);
                remaining_added.push(key.clone());
                assert(key_views(remaining_added@) =~= kept.push(key@));
            },
        }
        i = i + 1;
    }
    Ok((copy_actions, remaining_added))
}

/// The actions that remove properties.
pub(crate) fn remove_actions(keys: &Vec<String>, path: &[PathSegment]) -> (actions: Vec<Action>)
    ensures
        action::action_views(actions@) == remove_acts(
            key_views(keys@),
            action::path_view(path@),
        ),
        encoder::all_safe(action::action_views(actions@)),
{
    let ghost models = key_views(keys@);
    let ghost at = action::path_view(path@);
    let mut actions: Vec<Action> = Vec::new();
    let mut i: usize = 0;
    while i < keys.len()
        invariant
            i <= keys@.len(),
            models == key_views(keys@),
            at == action::path_view(path@),
            actions@.len() == i,
            forall|j: int|
                0 <= j < i ==> (#[trigger] actions@[j])@ == (Act::Remove {
                    path: property(at, models[j]),
                }),
        decreases keys@.len() - i,
    {
        assert(models[i as int] == keys@[i as int]@);
        actions.push(Action::Remove { path: property_path(path, &keys[i]) });
        i = i + 1;
    }
    assert(action::action_views(actions@) =~= remove_acts(models, at));
    actions
}

/// The actions that add properties of an object.
pub(crate) fn add_actions(
    keys: &Vec<String>,
    new: &StringMap<JsonValue>,
    path: &[PathSegment],
) -> (actions: Vec<Action>)
    requires
        safe_entries(json::entry_views(new.entries())),
        forall|i: int|
            0 <= i < keys@.len() ==> string_map::has_key(
                json::entry_views(new.entries()),
                #[trigger] key_views(keys@)[i],
            ),
    ensures
        action::action_views(actions@) == add_acts(
            key_views(keys@),
            json::entry_views(new.entries()),
            action::path_view(path@),
        ),
        encoder::all_safe(action::action_views(actions@)),
{
    let ghost models = key_views(keys@);
    let ghost entries = json::entry_views(new.entries());
    let ghost at = action::path_view(path@);
    let mut actions: Vec<Action> = Vec::new();
    let mut i: usize = 0;
    while i < keys.len()
        invariant
            i <= keys@.len(),
            models == key_views(keys@),
            entries == json::entry_views(new.entries()),
            safe_entries(entries),
            at == action::path_view(path@),
            forall|j: int|
                0 <= j < keys@.len() ==> string_map::has_key(entries, #[trigger] models[j]),
            actions@.len() == i,
            forall|j: int|
                0 <= j < i ==> {
                    &&& (#[trigger] actions@[j])@ == (Act::Add {
                        path: property(at, models[j]),
                        value: string_map::lookup(entries, models[j]),
                    })
                    &&& encoder::first_unsafe_number(actions@[j]@) is None
                },
        decreases keys@.len() - i,
    {
        assert(models[i as int] == keys@[i as int]@);
        let value: &JsonValue = value_under(new, keys[i].as_str());
        actions.push(Action::Add { path: property_path(path, &keys[i]), value: value.clone() });
        i = i + 1;
    }
    assert(action::action_views(actions@) =~= add_acts(models, entries, at));
    actions
}

} // verus!
