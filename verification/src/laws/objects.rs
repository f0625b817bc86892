//! Plans for objects lead to the new object.

use vstd::prelude::*;

use crate::apply;
use crate::json;
use crate::json::Json;
use crate::laws::normal;
use crate::laws::paths;
use crate::message::action::{Act, Segment};
use crate::producer::digest;
use crate::producer::objects;
use crate::producer::objects::{Copies, Moves};
use crate::string_map;

verus! {

/// Whether no action copies or moves from a path with `-` in it. The consumer refuses such an
/// action.
pub open spec fn dash_free_sources(acts: Seq<Act>) -> bool {
    forall|i: int|
        0 <= i < acts.len() ==> match #[trigger] acts[i] {
            Act::Copy { from, .. } => paths::dash_free(from),
            Act::Move { from, .. } => paths::dash_free(from),
            _ => true,
        }
}

/// Parts of a plan with acceptable sources have such sources.
pub proof fn lemma_dash_free_parts(a: Seq<Act>, b: Seq<Act>)
    requires
        dash_free_sources(a + b),
    ensures
        dash_free_sources(a),
        dash_free_sources(b),
{
    assert forall|i: int| 0 <= i < a.len() implies match #[trigger] a[i] {
        Act::Copy { from, .. } => paths::dash_free(from),
        Act::Move { from, .. } => paths::dash_free(from),
        _ => true,
    } by {
        assert((a + b)[i] == a[i]);
    }
    assert forall|i: int| 0 <= i < b.len() implies match #[trigger] b[i] {
        Act::Copy { from, .. } => paths::dash_free(from),
        Act::Move { from, .. } => paths::dash_free(from),
        _ => true,
    } by {
        assert((a + b)[a.len() + i] == b[i]);
    }
}

/// Actions that follow others do so up to the sign of zero floats.
pub proof fn lemma_norm_parts(a: Seq<Act>, b: Seq<Act>)
    ensures
        normal::norm_acts(a + b) == normal::norm_acts(a) + normal::norm_acts(b),
{
    assert(normal::norm_acts(a + b) =~= normal::norm_acts(a) + normal::norm_acts(b));
}

/// The value that an object has under a key, up to the sign of zero floats.
pub open spec fn norm_value(entries: Seq<(Seq<char>, Json)>, key: Seq<char>) -> Option<Json> {
    string_map::value_of(normal::norm_entries(entries), key)
}

/// How two objects under way from one to the other stand to each other.
pub struct Pair {
    /// The old object.
    pub old: Seq<(Seq<char>, Json)>,
    /// The new object.
    pub new: Seq<(Seq<char>, Json)>,
}

impl Pair {
    /// Whether the properties stand in key order.
    pub open spec fn sorted(self) -> bool {
        string_map::sorted(self.old) && string_map::sorted(self.new)
    }

    /// Whether both objects have a key.
    pub open spec fn common(self, key: Seq<char>) -> bool {
        string_map::has_key(self.old, key) && string_map::has_key(self.new, key)
    }

    /// Whether only the old object has a key.
    pub open spec fn removed(self, key: Seq<char>) -> bool {
        string_map::has_key(self.old, key) && !string_map::has_key(self.new, key)
    }

    /// Whether only the new object has a key.
    pub open spec fn added(self, key: Seq<char>) -> bool {
        !string_map::has_key(self.old, key) && string_map::has_key(self.new, key)
    }

    /// What the object under way has: the values of the old object under the common keys, and
    /// under those removed keys that are still `there`; and the values of the new object under
    /// the added keys that are not `missing`.
    pub open spec fn reached(
        self,
        entries: Seq<(Seq<char>, Json)>,
        there: spec_fn(Seq<char>) -> bool,
        missing: Seq<Seq<char>>,
    ) -> bool {
        &&& string_map::sorted(entries)
        &&& forall|key: Seq<char>| #[trigger]
            string_map::value_of(entries, key) == if self.common(key) || (self.removed(key)
                && there(key)) {
                norm_value(self.old, key)
            } else if self.added(key) && !missing.contains(key) {
                norm_value(self.new, key)
            } else {
                None
            }
    }
}

/// The keys that only the old object has are those; likewise for the new one.
proof fn lemma_keys(pair: Pair)
    requires
        pair.sorted(),
    ensures
        ({
            let removed = objects::removed_keys(pair.old, pair.new);
            let added = objects::added_keys(pair.old, pair.new);
            &&& removed.no_duplicates()
            &&& added.no_duplicates()
            &&& forall|key: Seq<char>| #[trigger] removed.contains(key) == pair.removed(key)
            &&& forall|key: Seq<char>| #[trigger] added.contains(key) == pair.added(key)
        }),
{
    let removed = objects::removed_keys(pair.old, pair.new);
    let added = objects::added_keys(pair.old, pair.new);
    objects::lemma_selected(pair.old, objects::occurring(pair.new, false), pair.old.len());
    objects::lemma_selected(pair.new, objects::occurring(pair.old, false), pair.new.len());
    assert forall|key: Seq<char>| #[trigger] removed.contains(key) == pair.removed(key) by {
        string_map::lemma_slot_range(pair.old, key);
    }
    assert forall|key: Seq<char>| #[trigger] added.contains(key) == pair.added(key) by {
        string_map::lemma_slot_range(pair.new, key);
    }
}

/// What is true of the moves of the values under the first removed keys.
spec fn moves_fit(pair: Pair, moves: Moves, count: nat) -> bool {
    let removed = objects::removed_keys(pair.old, pair.new);
    &&& moves.added.no_duplicates()
    &&& forall|key: Seq<char>| #[trigger] moves.added.contains(key) ==> pair.added(key)
    &&& forall|key: Seq<char>| #[trigger]
        moves.removed.contains(key) ==> removed.take(count as int).contains(key)
    &&& moves.removed.no_duplicates()
}

/// The keys that are still there after the moves of the values under the first removed keys.
spec fn still_there(pair: Pair, moves: Moves, count: nat) -> spec_fn(Seq<char>) -> bool {
    let removed = objects::removed_keys(pair.old, pair.new);
    |key: Seq<char>| moves.removed.contains(key) || !removed.take(count as int).contains(key)
}

/// What the first items of a sequence with one more are.
proof fn lemma_take_contains<T>(items: Seq<T>, count: nat)
    requires
        0 < count <= items.len(),
    ensures
        forall|x: T| #[trigger]
            items.take(count as int).contains(x) == (items.take(count - 1).contains(x) || x
                == items[count - 1]),
{
    let a = items.take(count as int);
    let b = items.take(count - 1);
    assert(a =~= b.push(items[count - 1]));
    lemma_push_contains(b, items[count - 1]);
}

/// What a sequence with one more item holds.
proof fn lemma_push_contains<T>(items: Seq<T>, last: T)
    ensures
        forall|x: T| #[trigger] items.push(last).contains(x) == (items.contains(x) || x == last),
{
    let longer = items.push(last);
    assert forall|x: T| #[trigger] longer.contains(x) == (items.contains(x) || x == last) by {
        if items.contains(x) {
            let i = choose|i: int| 0 <= i < items.len() && items[i] == x;
            assert(longer[i] == x);
        }
        if x == last {
            assert(longer[items.len() as int] == x);
        }
    }
}

/// What a sequence without duplicates holds without one of its items.
proof fn lemma_remove_contains<T>(items: Seq<T>, at: int)
    requires
        0 <= at < items.len(),
        items.no_duplicates(),
    ensures
        items.remove(at).no_duplicates(),
        forall|x: T| #[trigger]
            items.remove(at).contains(x) == (items.contains(x) && x != items[at]),
{
    let rest = items.remove(at);
    assert forall|x: T| #[trigger] rest.contains(x) == (items.contains(x) && x != items[at]) by {
        if rest.contains(x) {
            let j = choose|j: int| 0 <= j < rest.len() && rest[j] == x;
            let i = if j < at {
                j
            } else {
                j + 1
            };
            assert(items[i] == x);
        }
        if items.contains(x) && x != items[at] {
            let i = choose|i: int| 0 <= i < items.len() && items[i] == x;
            let j = if i < at {
                i
            } else {
                i - 1
            };
            assert(rest[j] == x);
        }
    }
}

/// The moves lead to an object that has the moved values under their new keys.
proof fn lemma_moves(
    root: Json,
    path: Seq<Segment>,
    pair: Pair,
    pool: Seq<Segment>,
    count: nat,
) -> (reached: Seq<(Seq<char>, Json)>)
    requires
        paths::counted(path),
        paths::found(root, path, Json::Object(normal::norm_entries(pair.old))),
        pair.sorted(),
        count <= objects::removed_keys(pair.old, pair.new).len(),
        dash_free_sources(objects::moves(pair.old, pair.new, path, pool, count).acts),
    ensures
        ({
            let moves = objects::moves(pair.old, pair.new, path, pool, count);
            &&& moves_fit(pair, moves, count)
            &&& pair.reached(reached, still_there(pair, moves, count), moves.added)
            &&& paths::leads(
                root,
                normal::norm_acts(moves.acts),
                apply::put(root, path, 0, Json::Object(reached)),
            )
        }),
    decreases count,
{
    let removed = objects::removed_keys(pair.old, pair.new);
    let moves = objects::moves(pair.old, pair.new, path, pool, count);
    lemma_keys(pair);
    if count == 0 {
        let start = normal::norm_entries(pair.old);
        apply::lemma_put_same(root, path, 0, apply::Step::Target);
        assert(normal::norm_acts(moves.acts) =~= Seq::empty());
        paths::lemma_leads_nowhere(root);
        assert(removed.take(0) =~= Seq::empty());
        assert(string_map::sorted(start));
        assert forall|key: Seq<char>| #[trigger]
            string_map::value_of(start, key) == if pair.common(key) || (pair.removed(key)
                && still_there(pair, moves, count)(key)) {
                norm_value(pair.old, key)
            } else if pair.added(key) && !moves.added.contains(key) {
                norm_value(pair.new, key)
            } else {
                None
            } by {
            normal::lemma_norm_lookup(pair.old, key);
            assert(moves.added.contains(key) == pair.added(key));
        }
        start
    } else {
        let earlier = (count - 1) as nat;
        let before = objects::moves(pair.old, pair.new, path, pool, earlier);
        let key = removed[count - 1];
        assert(moves == objects::move_one(before, key, pair.old, pair.new, path, pool));
        assert(removed.contains(key));
        lemma_take_contains(removed, count);
        assert(!removed.take(earlier as int).contains(key)) by {
            if removed.take(earlier as int).contains(key) {
                let i = choose|i: int|
                    0 <= i < earlier && removed.take(earlier as int)[i] == key;
                assert(removed[i] == removed[count - 1]);
            }
        }
        match objects::move_target(before, key, pair.old, pair.new, path, pool) {
            Some(at) => {
                let act = Act::Move {
                    from: objects::property(path, key),
                    path: objects::property(path, before.added[at]),
                };
                assert(moves.acts =~= before.acts + seq![act]);
                lemma_dash_free_parts(before.acts, seq![act]);
                let there = lemma_moves(root, path, pair, pool, earlier);
                lemma_one_move(root, path, pair, pool, count, there, at);
                string_map::with_entry(
                    string_map::without_key(there, key),
                    before.added[at],
                    string_map::lookup(there, key),
                )
            },
            None => {
                let there = lemma_moves(root, path, pair, pool, earlier);
                lemma_push_contains(before.removed, key);
                assert(before.removed.contains(key) ==> removed.take(earlier as int).contains(key));
                assert forall|k: Seq<char>| #[trigger]
                    string_map::value_of(there, k) == if pair.common(k) || (pair.removed(k)
                        && still_there(pair, moves, count)(k)) {
                        norm_value(pair.old, k)
                    } else if pair.added(k) && !moves.added.contains(k) {
                        norm_value(pair.new, k)
                    } else {
                        None
                    } by {
                    assert(still_there(pair, moves, count)(k) == still_there(
                        pair,
                        before,
                        earlier,
                    )(k)) by {
                        assert(moves.removed.contains(k) == (before.removed.contains(k) || k
                            == key));
                        assert(removed.take(count as int).contains(k) == (removed.take(
                            earlier as int,
                        ).contains(k) || k == key));
                    }
                }
                there
            },
        }
    }
}

/// One more move leads on.
proof fn lemma_one_move(
    root: Json,
    path: Seq<Segment>,
    pair: Pair,
    pool: Seq<Segment>,
    count: nat,
    there: Seq<(Seq<char>, Json)>,
    at: int,
)
    requires
        paths::counted(path),
        paths::found(root, path, Json::Object(normal::norm_entries(pair.old))),
        pair.sorted(),
        0 < count <= objects::removed_keys(pair.old, pair.new).len(),
        ({
            let removed = objects::removed_keys(pair.old, pair.new);
            let before = objects::moves(pair.old, pair.new, path, pool, (count - 1) as nat);
            let key = removed[count - 1];
            &&& moves_fit(pair, before, (count - 1) as nat)
            &&& pair.reached(there, still_there(pair, before, (count - 1) as nat), before.added)
            &&& paths::leads(
                root,
                normal::norm_acts(before.acts),
                apply::put(root, path, 0, Json::Object(there)),
            )
            &&& objects::move_target(before, key, pair.old, pair.new, path, pool) == Some(at)
            &&& paths::dash_free(objects::property(path, key))
        }),
    ensures
        ({
            let removed = objects::removed_keys(pair.old, pair.new);
            let before = objects::moves(pair.old, pair.new, path, pool, (count - 1) as nat);
            let moves = objects::moves(pair.old, pair.new, path, pool, count);
            let key = removed[count - 1];
            let reached = string_map::with_entry(
                string_map::without_key(there, key),
                before.added[at],
                string_map::lookup(there, key),
            );
            &&& moves_fit(pair, moves, count)
            &&& pair.reached(reached, still_there(pair, moves, count), moves.added)
            &&& paths::leads(
                root,
                normal::norm_acts(moves.acts),
                apply::put(root, path, 0, Json::Object(reached)),
            )
        }),
{
    let removed = objects::removed_keys(pair.old, pair.new);
    let earlier = (count - 1) as nat;
    let before = objects::moves(pair.old, pair.new, path, pool, earlier);
    let moves = objects::moves(pair.old, pair.new, path, pool, count);
    let key = removed[count - 1];
    let value = string_map::lookup(pair.old, key);
    lemma_keys(pair);
    assert(removed.contains(key));
    objects::lemma_first_digest(
        before.added,
        pair.new,
        digest::digest(value),
        0,
    );
    let target = before.added[at];
    assert(before.added.contains(target));
    let between = string_map::without_key(there, key);
    let reached = string_map::with_entry(between, target, string_map::lookup(there, key));
    lemma_take_contains(removed, count);
    assert(!removed.take(earlier as int).contains(key)) by {
        if removed.take(earlier as int).contains(key) {
            let i = choose|i: int| 0 <= i < earlier && removed.take(earlier as int)[i] == key;
            assert(removed[i] == removed[count - 1]);
        }
    }
    lemma_remove_contains(before.added, at);
    normal::lemma_norm_lookup(pair.old, key);
    normal::lemma_norm_lookup(pair.new, target);
    assert(string_map::value_of(there, key) == norm_value(pair.old, key));
    string_map::lemma_removed_value(there, key);
    string_map::lemma_put_value(between, target, string_map::lookup(there, key));
    assert forall|k: Seq<char>| #[trigger]
        string_map::value_of(reached, k) == if pair.common(k) || (pair.removed(k) && still_there(
            pair,
            moves,
            count,
        )(k)) {
            norm_value(pair.old, k)
        } else if pair.added(k) && !moves.added.contains(k) {
            norm_value(pair.new, k)
        } else {
            None
        } by {
        assert(string_map::value_of(between, k) == if k == key {
            None
        } else {
            string_map::value_of(there, k)
        });
        assert(moves.added.contains(k) == (before.added.contains(k) && k != target));
        assert(removed.take(count as int).contains(k) == (removed.take(
            earlier as int,
        ).contains(k) || k == key));
        assert(before.removed.contains(key) ==> removed.take(earlier as int).contains(key));
    }
    let act = Act::Move {
        from: objects::property(path, key),
        path: objects::property(path, target),
    };
    let here = apply::put(root, path, 0, Json::Object(there));
    paths::lemma_put(
        root,
        path,
        0,
        Json::Object(normal::norm_entries(pair.old)),
        Json::Object(there),
        Json::Object(reached),
    );
    paths::lemma_move_property(here, path, there, key, target);
    assert(normal::norm_acts(moves.acts) =~= normal::norm_acts(before.acts) + seq![act]);
    paths::lemma_leads_on(
        root,
        normal::norm_acts(before.acts),
        here,
        seq![act],
        apply::put(root, path, 0, Json::Object(reached)),
    );
}

/// The condition that a key is not among the first of some keys.
spec fn not_yet(keys: Seq<Seq<char>>, count: nat) -> spec_fn(Seq<char>) -> bool {
    |key: Seq<char>| keys.contains(key) && !keys.take(count as int).contains(key)
}

/// The condition that is never met.
pub open spec fn never() -> spec_fn(Seq<char>) -> bool {
    |key: Seq<char>| false
}

/// Removing keys leads to an object that does not have them.
proof fn lemma_removes(
    root: Json,
    path: Seq<Segment>,
    before: Json,
    pair: Pair,
    keys: Seq<Seq<char>>,
    missing: Seq<Seq<char>>,
    start: Seq<(Seq<char>, Json)>,
    count: nat,
) -> (reached: Seq<(Seq<char>, Json)>)
    requires
        paths::counted(path),
        paths::found(root, path, before),
        pair.sorted(),
        keys.no_duplicates(),
        forall|key: Seq<char>| #[trigger] keys.contains(key) ==> pair.removed(key),
        pair.reached(start, not_yet(keys, 0), missing),
        count <= keys.len(),
    ensures
        pair.reached(reached, not_yet(keys, count), missing),
        paths::leads(
            apply::put(root, path, 0, Json::Object(start)),
            normal::norm_acts(objects::remove_acts(keys.take(count as int), path)),
            apply::put(root, path, 0, Json::Object(reached)),
        ),
    decreases count,
{
    let acts = objects::remove_acts(keys.take(count as int), path);
    if count == 0 {
        assert(normal::norm_acts(acts) =~= Seq::empty());
        paths::lemma_leads_nowhere(apply::put(root, path, 0, Json::Object(start)));
        start
    } else {
        let earlier = (count - 1) as nat;
        let there = lemma_removes(root, path, before, pair, keys, missing, start, earlier);
        let key = keys[count - 1];
        assert(keys.contains(key));
        lemma_take_contains(keys, count);
        assert(!keys.take(earlier as int).contains(key)) by {
            if keys.take(earlier as int).contains(key) {
                let i = choose|i: int| 0 <= i < earlier && keys.take(earlier as int)[i] == key;
                assert(keys[i] == keys[count - 1]);
            }
        }
        let reached = string_map::without_key(there, key);
        assert(string_map::value_of(there, key) == norm_value(pair.old, key));
        normal::lemma_norm_lookup(pair.old, key);
        string_map::lemma_removed_value(there, key);
        assert forall|k: Seq<char>| #[trigger]
            string_map::value_of(reached, k) == if pair.common(k) || (pair.removed(k) && not_yet(
                keys,
                count,
            )(k)) {
                norm_value(pair.old, k)
            } else if pair.added(k) && !missing.contains(k) {
                norm_value(pair.new, k)
            } else {
                None
            } by {
            assert(keys.take(count as int).contains(k) == (keys.take(earlier as int).contains(k)
                || k == key));
            assert(string_map::value_of(there, k) == if pair.common(k) || (pair.removed(k)
                && not_yet(keys, earlier)(k)) {
                norm_value(pair.old, k)
            } else if pair.added(k) && !missing.contains(k) {
                norm_value(pair.new, k)
            } else {
                None
            });
        }
        let act = Act::Remove { path: objects::property(path, key) };
        let here = apply::put(root, path, 0, Json::Object(there));
        paths::lemma_put(root, path, 0, before, Json::Object(there), Json::Object(reached));
        paths::lemma_remove_property(here, path, there, key);
        let first = objects::remove_acts(keys.take(earlier as int), path);
        assert(normal::norm_acts(acts) =~= normal::norm_acts(first) + seq![act]);
        paths::lemma_leads_on(
            apply::put(root, path, 0, Json::Object(start)),
            normal::norm_acts(first),
            here,
            seq![act],
            apply::put(root, path, 0, Json::Object(reached)),
        );
        reached
    }
}

/// The added keys that are missing after the copies to the first of some keys.
spec fn missing_after(copies: Copies, keys: Seq<Seq<char>>, count: nat) -> Seq<Seq<char>> {
    copies.added + keys.skip(count as int)
}

/// A key from which a value is copied has the value that is wanted.
proof fn lemma_copy_source(
    pair: Pair,
    path: Seq<Segment>,
    pool: Seq<Segment>,
    key: Seq<char>,
)
    requires
        pair.sorted(),
        pair.added(key),
    ensures
        objects::copy_source(key, pair.old, pair.new, path, pool) matches Some(source) ==> {
            &&& pair.common(source)
            &&& norm_value(pair.old, source) == norm_value(pair.new, key)
            &&& norm_value(pair.old, source) is Some
        },
{
    let value = string_map::lookup(pair.new, key);
    let sources = objects::unchanged_keys(pair.old, pair.new);
    let wanted = digest::digest(value);
    objects::lemma_first_digest(sources, pair.new, wanted, 0);
    if let Some(source) = objects::copy_source(key, pair.old, pair.new, path, pool) {
        objects::lemma_selected(
            pair.old,
            objects::unchanged(pair.old, pair.new),
            pair.old.len(),
        );
        let at = objects::first_digest(sources, pair.new, wanted, 0)->0;
        assert(sources.contains(sources[at]));
        normal::lemma_norm_lookup(pair.old, source);
        normal::lemma_norm_lookup(pair.new, key);
    }
}

/// Copying values to added keys leads to an object that has them.
proof fn lemma_copies(
    root: Json,
    path: Seq<Segment>,
    before: Json,
    pair: Pair,
    pool: Seq<Segment>,
    keys: Seq<Seq<char>>,
    start: Seq<(Seq<char>, Json)>,
    count: nat,
) -> (reached: Seq<(Seq<char>, Json)>)
    requires
        paths::counted(path),
        paths::found(root, path, before),
        pair.sorted(),
        keys.no_duplicates(),
        forall|key: Seq<char>| #[trigger] keys.contains(key) ==> pair.added(key),
        pair.reached(start, never(), keys),
        count <= keys.len(),
        dash_free_sources(objects::copies(keys, pair.old, pair.new, path, pool, count).acts),
    ensures
        ({
            let copies = objects::copies(keys, pair.old, pair.new, path, pool, count);
            &&& pair.reached(reached, never(), missing_after(copies, keys, count))
            &&& copies.added.no_duplicates()
            &&& forall|key: Seq<char>| #[trigger]
                copies.added.contains(key) ==> keys.take(count as int).contains(key)
            &&& paths::leads(
                apply::put(root, path, 0, Json::Object(start)),
                normal::norm_acts(copies.acts),
                apply::put(root, path, 0, Json::Object(reached)),
            )
        }),
    decreases count,
{
    let copies = objects::copies(keys, pair.old, pair.new, path, pool, count);
    let begin = apply::put(root, path, 0, Json::Object(start));
    if count == 0 {
        assert(normal::norm_acts(copies.acts) =~= Seq::empty());
        paths::lemma_leads_nowhere(begin);
        assert(missing_after(copies, keys, count) =~= keys);
        start
    } else {
        let earlier = (count - 1) as nat;
        let prior = objects::copies(keys, pair.old, pair.new, path, pool, earlier);
        let key = keys[count - 1];
        assert(copies == objects::copy_one(prior, key, pair.old, pair.new, path, pool));
        assert(keys.contains(key));
        lemma_take_contains(keys, count);
        assert(!keys.take(earlier as int).contains(key)) by {
            if keys.take(earlier as int).contains(key) {
                let i = choose|i: int| 0 <= i < earlier && keys.take(earlier as int)[i] == key;
                assert(keys[i] == keys[count - 1]);
            }
        }
        lemma_copy_source(pair, path, pool, key);
        match objects::copy_source(key, pair.old, pair.new, path, pool) {
            Some(source) => {
                let act = Act::Copy {
                    from: objects::property(path, source),
                    path: objects::property(path, key),
                };
                assert(copies.acts =~= prior.acts + seq![act]);
                lemma_dash_free_parts(prior.acts, seq![act]);
                assert(seq![act][0] == act);
                let there = lemma_copies(root, path, before, pair, pool, keys, start, earlier);
                lemma_missing_after(prior, copies, keys, count);
                assert(string_map::value_of(there, source) == norm_value(pair.old, source));
                let reached = string_map::with_entry(
                    there,
                    key,
                    string_map::lookup(there, source),
                );
                string_map::lemma_put_value(there, key, string_map::lookup(there, source));
                assert forall|k: Seq<char>| #[trigger]
                    string_map::value_of(reached, k) == if pair.common(k) || (pair.removed(k)
                        && never()(k)) {
                        norm_value(pair.old, k)
                    } else if pair.added(k) && !missing_after(copies, keys, count).contains(k) {
                        norm_value(pair.new, k)
                    } else {
                        None
                    } by {
                    assert(string_map::value_of(there, k) == if pair.common(k) {
                        norm_value(pair.old, k)
                    } else if pair.added(k) && !missing_after(prior, keys, earlier).contains(k) {
                        norm_value(pair.new, k)
                    } else {
                        None
                    });
                }
                let here = apply::put(root, path, 0, Json::Object(there));
                paths::lemma_put(root, path, 0, before, Json::Object(there), Json::Object(reached));
                paths::lemma_copy_property(here, path, there, source, key);
                assert(normal::norm_acts(copies.acts) =~= normal::norm_acts(prior.acts)
                    + seq![act]);
                paths::lemma_leads_on(
                    begin,
                    normal::norm_acts(prior.acts),
                    here,
                    seq![act],
                    apply::put(root, path, 0, Json::Object(reached)),
                );
                reached
            },
            None => {
                let there = lemma_copies(root, path, before, pair, pool, keys, start, earlier);
                lemma_push_contains(prior.added, key);
                lemma_missing_after(prior, copies, keys, count);
                assert(prior.added.contains(key) ==> keys.take(earlier as int).contains(key));
                assert forall|k: Seq<char>| #[trigger]
                    string_map::value_of(there, k) == if pair.common(k) || (pair.removed(k)
                        && never()(k)) {
                        norm_value(pair.old, k)
                    } else if pair.added(k) && !missing_after(copies, keys, count).contains(k) {
                        norm_value(pair.new, k)
                    } else {
                        None
                    } by {
                    assert(missing_after(copies, keys, count).contains(k) == missing_after(
                        prior,
                        keys,
                        earlier,
                    ).contains(k));
                }
                there
            },
        }
    }
}

/// Which keys are missing after one more key has been dealt with.
proof fn lemma_missing_after(prior: Copies, copies: Copies, keys: Seq<Seq<char>>, count: nat)
    requires
        0 < count <= keys.len(),
        keys.no_duplicates(),
        copies.added == prior.added || copies.added == prior.added.push(keys[count - 1]),
        forall|key: Seq<char>| #[trigger]
            prior.added.contains(key) ==> keys.take(count - 1).contains(key),
    ensures
        forall|k: Seq<char>| #[trigger]
            missing_after(copies, keys, count).contains(k) == {
                &&& missing_after(prior, keys, (count - 1) as nat).contains(k)
                &&& copies.added == prior.added ==> k != keys[count - 1]
            },
{
    let key = keys[count - 1];
    let after = missing_after(copies, keys, count);
    let before = missing_after(prior, keys, (count - 1) as nat);
    lemma_push_contains(prior.added, key);
    assert(copies.added == prior.added ==> copies.added != prior.added.push(key)) by {
        assert(prior.added.push(key).len() == prior.added.len() + 1);
    }
    assert(keys.skip(count - 1) =~= seq![key] + keys.skip(count as int));
    assert forall|k: Seq<char>| #[trigger]
        after.contains(k) == {
            &&& before.contains(k)
            &&& copies.added == prior.added ==> k != key
        } by {
        lemma_concat_contains(copies.added, keys.skip(count as int), k);
        lemma_concat_contains(prior.added, keys.skip(count - 1), k);
        lemma_concat_contains(seq![key], keys.skip(count as int), k);
        assert(seq![key].contains(k) == (k == key)) by {
            if k == key {
                assert(seq![key][0] == k);
            }
        }
        assert(!keys.skip(count as int).contains(key)) by {
            if keys.skip(count as int).contains(key) {
                let i = choose|i: int|
                    0 <= i < keys.skip(count as int).len() && keys.skip(count as int)[i] == key;
                assert(keys[count + i] == keys[count - 1]);
            }
        }
        if k == key && prior.added.contains(k) {
            let first = keys.take(count - 1);
            assert(first.contains(key));
            let i = choose|i: int| 0 <= i < first.len() && first[i] == key;
            assert(keys[i] == keys[count - 1]);
        }
    }
}

/// What two sequences hold together.
proof fn lemma_concat_contains<T>(a: Seq<T>, b: Seq<T>, x: T)
    ensures
        (a + b).contains(x) == (a.contains(x) || b.contains(x)),
{
    let c = a + b;
    if c.contains(x) {
        let i = choose|i: int| 0 <= i < c.len() && c[i] == x;
        if i < a.len() {
            assert(a[i] == x);
        } else {
            assert(b[i - a.len()] == x);
        }
    }
    if a.contains(x) {
        let i = choose|i: int| 0 <= i < a.len() && a[i] == x;
        assert(c[i] == x);
    }
    if b.contains(x) {
        let i = choose|i: int| 0 <= i < b.len() && b[i] == x;
        assert(c[a.len() + i] == x);
    }
}

/// Moving, removing and copying leads to an object that has the old values under the common keys,
/// and lacks only those added keys that are still to be added.
pub proof fn lemma_before_entries(
    root: Json,
    path: Seq<Segment>,
    pair: Pair,
    pool: Seq<Segment>,
) -> (reached: Seq<(Seq<char>, Json)>)
    requires
        paths::counted(path),
        paths::found(root, path, Json::Object(normal::norm_entries(pair.old))),
        pair.sorted(),
        ({
            let removed = objects::removed_keys(pair.old, pair.new);
            let moved = objects::moves(pair.old, pair.new, path, pool, removed.len());
            let added = moved.added;
            let copied = objects::copies(added, pair.old, pair.new, path, pool, added.len());
            dash_free_sources(
                moved.acts + objects::remove_acts(moved.removed, path) + copied.acts,
            )
        }),
    ensures
        ({
            let removed = objects::removed_keys(pair.old, pair.new);
            let moved = objects::moves(pair.old, pair.new, path, pool, removed.len());
            let added = moved.added;
            let copied = objects::copies(added, pair.old, pair.new, path, pool, added.len());
            &&& pair.reached(reached, never(), copied.added)
            &&& copied.added.no_duplicates()
            &&& forall|key: Seq<char>| #[trigger] copied.added.contains(key) ==> pair.added(key)
            &&& paths::leads(
                root,
                normal::norm_acts(
                    moved.acts + objects::remove_acts(moved.removed, path) + copied.acts,
                ),
                apply::put(root, path, 0, Json::Object(reached)),
            )
        }),
{
    let before = Json::Object(normal::norm_entries(pair.old));
    let removed = objects::removed_keys(pair.old, pair.new);
    let count = removed.len();
    let moved = objects::moves(pair.old, pair.new, path, pool, count);
    let removes = objects::remove_acts(moved.removed, path);
    let keys = moved.added;
    let copied = objects::copies(keys, pair.old, pair.new, path, pool, keys.len());
    lemma_dash_free_parts(moved.acts + removes, copied.acts);
    lemma_dash_free_parts(moved.acts, removes);
    lemma_keys(pair);

    let a = lemma_moves(root, path, pair, pool, count);
    assert(removed.take(count as int) =~= removed);
    assert forall|key: Seq<char>| #[trigger]
        string_map::value_of(a, key) == if pair.common(key) || (pair.removed(key) && not_yet(
            moved.removed,
            0,
        )(key)) {
            norm_value(pair.old, key)
        } else if pair.added(key) && !keys.contains(key) {
            norm_value(pair.new, key)
        } else {
            None
        } by {
        assert(moved.removed.take(0) =~= Seq::empty());
        assert(removed.contains(key) == pair.removed(key));
    }
    let b = lemma_removes(
        root,
        path,
        before,
        pair,
        moved.removed,
        keys,
        a,
        moved.removed.len(),
    );
    assert(moved.removed.take(moved.removed.len() as int) =~= moved.removed);
    assert(pair.reached(b, never(), keys));
    let c = lemma_copies(root, path, before, pair, pool, keys, b, keys.len());
    assert(missing_after(copied, keys, keys.len()) =~= copied.added);
    assert(keys.take(keys.len() as int) =~= keys);
    lemma_norm_parts(moved.acts + removes, copied.acts);
    lemma_norm_parts(moved.acts, removes);
    paths::lemma_leads_on(
        root,
        normal::norm_acts(moved.acts),
        apply::put(root, path, 0, Json::Object(a)),
        normal::norm_acts(removes),
        apply::put(root, path, 0, Json::Object(b)),
    );
    paths::lemma_leads_on(
        root,
        normal::norm_acts(moved.acts) + normal::norm_acts(removes),
        apply::put(root, path, 0, Json::Object(b)),
        normal::norm_acts(copied.acts),
        apply::put(root, path, 0, Json::Object(c)),
    );
    c
}

/// Whether an object has the values of the new one under its keys, but for some keys.
pub open spec fn lacks_only(
    entries: Seq<(Seq<char>, Json)>,
    new: Seq<(Seq<char>, Json)>,
    keys: Seq<Seq<char>>,
) -> bool {
    &&& string_map::sorted(entries)
    &&& forall|key: Seq<char>| #[trigger]
        string_map::value_of(entries, key) == if keys.contains(key) {
            None
        } else {
            norm_value(new, key)
        }
}

/// Adding the keys that are missing leads to the new object.
pub proof fn lemma_adds(
    root: Json,
    path: Seq<Segment>,
    before: Json,
    new: Seq<(Seq<char>, Json)>,
    keys: Seq<Seq<char>>,
    start: Seq<(Seq<char>, Json)>,
)
    requires
        paths::counted(path),
        paths::found(root, path, before),
        string_map::sorted(new),
        keys.no_duplicates(),
        forall|key: Seq<char>| #[trigger] keys.contains(key) ==> string_map::has_key(new, key),
        lacks_only(start, new, keys),
    ensures
        paths::leads(
            apply::put(root, path, 0, Json::Object(start)),
            normal::norm_acts(objects::add_acts(keys, new, path)),
            apply::put(root, path, 0, Json::Object(normal::norm_entries(new))),
        ),
    decreases keys.len(),
{
    let acts = objects::add_acts(keys, new, path);
    let begin = apply::put(root, path, 0, Json::Object(start));
    if keys.len() == 0 {
        let all = normal::norm_entries(new);
        assert(normal::norm_acts(acts) =~= Seq::empty());
        paths::lemma_leads_nowhere(begin);
        assert(string_map::sorted(all));
        assert forall|key: Seq<char>| #[trigger]
            string_map::value_of(start, key) == string_map::value_of(all, key) by {
            assert(!keys.contains(key));
        }
        string_map::lemma_same_values(start, all);
    } else {
        let key = keys[0];
        let rest = keys.drop_first();
        let value = string_map::lookup(new, key);
        let act = Act::Add { path: objects::property(path, key), value };
        let next = string_map::with_entry(start, key, json::norm(value));
        assert(keys.contains(key));
        normal::lemma_norm_lookup(new, key);
        string_map::lemma_put_value(start, key, json::norm(value));
        lemma_remove_contains(keys, 0);
        assert(keys.remove(0) =~= rest);
        assert forall|k: Seq<char>| #[trigger]
            string_map::value_of(next, k) == if rest.contains(k) {
                None
            } else {
                norm_value(new, k)
            } by {
            assert(rest.contains(k) == (keys.contains(k) && k != key));
            assert(string_map::value_of(start, k) == if keys.contains(k) {
                None
            } else {
                norm_value(new, k)
            });
        }
        paths::lemma_put(root, path, 0, before, Json::Object(start), Json::Object(next));
        paths::lemma_add_property(begin, path, start, key, json::norm(value));
        lemma_adds(root, path, before, new, rest, next);
        let others = objects::add_acts(rest, new, path);
        assert(normal::norm_acts(acts) =~= seq![normal::norm_act(act)] + normal::norm_acts(
            others,
        ));
        paths::lemma_leads_on(
            begin,
            seq![normal::norm_act(act)],
            apply::put(root, path, 0, Json::Object(next)),
            normal::norm_acts(others),
            apply::put(root, path, 0, Json::Object(normal::norm_entries(new))),
        );
    }
}

/// The keys that are left to be added after the moves are keys of the new object.
pub proof fn lemma_left_by_moves(
    old: Seq<(Seq<char>, Json)>,
    new: Seq<(Seq<char>, Json)>,
    path: Seq<Segment>,
    pool: Seq<Segment>,
    count: nat,
)
    requires
        string_map::sorted(new),
    ensures
        forall|i: int|
            0 <= i < objects::moves(old, new, path, pool, count).added.len()
                ==> string_map::has_key(
                new,
                #[trigger] objects::moves(old, new, path, pool, count).added[i],
            ),
    decreases count,
{
    let moves = objects::moves(old, new, path, pool, count);
    let removed = objects::removed_keys(old, new);
    if count == 0 || count > removed.len() {
        let added = objects::added_keys(old, new);
        objects::lemma_selected(new, objects::occurring(old, false), new.len());
        assert forall|i: int| 0 <= i < added.len() implies string_map::has_key(
            new,
            #[trigger] added[i],
        ) by {
            assert(added.contains(added[i]));
        }
    } else {
        let before = objects::moves(old, new, path, pool, (count - 1) as nat);
        let key = removed[count - 1];
        lemma_left_by_moves(old, new, path, pool, (count - 1) as nat);
        objects::lemma_first_digest(
            before.added,
            new,
            digest::digest(string_map::lookup(old, key)),
            0,
        );
        if let Some(at) = objects::move_target(before, key, old, new, path, pool) {
            assert forall|i: int| 0 <= i < moves.added.len() implies string_map::has_key(
                new,
                #[trigger] moves.added[i],
            ) by {
                let j = if i < at {
                    i
                } else {
                    i + 1
                };
                assert(moves.added[i] == before.added[j]);
            }
        }
    }
}

/// The keys that are left to be added after the copies are keys of the new object.
pub proof fn lemma_left_by_copies(
    keys: Seq<Seq<char>>,
    old: Seq<(Seq<char>, Json)>,
    new: Seq<(Seq<char>, Json)>,
    path: Seq<Segment>,
    pool: Seq<Segment>,
    count: nat,
)
    requires
        forall|i: int| 0 <= i < keys.len() ==> string_map::has_key(new, #[trigger] keys[i]),
    ensures
        forall|i: int|
            0 <= i < objects::copies(keys, old, new, path, pool, count).added.len()
                ==> string_map::has_key(
                new,
                #[trigger] objects::copies(keys, old, new, path, pool, count).added[i],
            ),
    decreases count,
{
    if 0 < count <= keys.len() {
        let key = keys[count - 1];
        let before = objects::copies(keys, old, new, path, pool, (count - 1) as nat);
        let copies = objects::copies(keys, old, new, path, pool, count);
        lemma_left_by_copies(keys, old, new, path, pool, (count - 1) as nat);
        assert(string_map::has_key(new, key));
        assert forall|i: int| 0 <= i < copies.added.len() implies string_map::has_key(
            new,
            #[trigger] copies.added[i],
        ) by {
            if i < before.added.len() {
                assert(copies.added[i] == before.added[i]);
            }
        }
    }
}

} // verus!
