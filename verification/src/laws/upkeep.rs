//! What a producer keeps up from message to message.

use vstd::prelude::*;

use crate::cbor;
use crate::json;
use crate::json::Json;
use crate::message::action::{Act, Segment};
use crate::message::encoder;
use crate::message::pool;
use crate::producer::cost;
use crate::producer::diff;
use crate::producer::digest;
use crate::producer::myers::Problem;
use crate::producer::objects;
use crate::producer::sequences;
use crate::producer::ProducerModel;
use crate::string_map;

verus! {

/// The first message is a snapshot of the current document, whatever it was before.
pub proof fn law_first_message_is_a_snapshot(producer: ProducerModel)
    requires
        producer.emitted is None,
    ensures
        !producer.up_to_date(),
        producer.next_acts() == seq![Act::Snapshot { value: producer.current }],
{
}

/// A producer that has sent a message is up to date, and stays so until its document changes. Its
/// document stays as it was, and its pool keeps every segment at its index.
pub proof fn law_sent_messages_bring_up_to_date(producer: ProducerModel, next: Json)
    ensures
        ({
            let after = producer.after_message();
            &&& after.up_to_date()
            &&& after.current == producer.current
            &&& after.array_patches == producer.array_patches
            &&& pool::extends(after.pool, producer.pool)
            &&& ProducerModel { current: next, ..after }.up_to_date() <==> json::same(
                producer.current,
                next,
            )
        }),
{
    let acts = producer.next_acts();
    encoder::lemma_absorb_acts(producer.pool, acts, acts.len());
}

/// Looking up the segments of a path keeps the pool's segments at their indexes, adds those that
/// were missing, and adds no other. None occurs twice.
pub proof fn law_pools_take_up_what_is_missing(base: Seq<Segment>, path: Seq<Segment>)
    requires
        base.no_duplicates(),
    ensures
        ({
            let after = pool::absorb_path(base, path);
            &&& after.len() >= base.len()
            &&& forall|i: int| 0 <= i < base.len() ==> #[trigger] after[i] == base[i]
            &&& after.no_duplicates()
            &&& forall|i: int| 0 <= i < path.len() ==> after.contains(#[trigger] path[i])
            &&& forall|i: int|
                base.len() <= i < after.len() ==> path.contains(#[trigger] after[i])
        }),
    decreases path.len(),
{
    if path.len() > 0 {
        let front = path.drop_last();
        let before = pool::absorb_path(base, front);
        let after = pool::absorb_path(base, path);
        law_pools_take_up_what_is_missing(base, front);
        pool::lemma_absorb(before, path.last());
        assert forall|i: int| 0 <= i < path.len() implies after.contains(#[trigger] path[i]) by {
            if i < front.len() {
                assert(front[i] == path[i]);
                let j = choose|j: int| 0 <= j < before.len() && before[j] == path[i];
                assert(after[j] == path[i]);
            }
        }
        assert forall|i: int| base.len() <= i < after.len() implies path.contains(
            #[trigger] after[i],
        ) by {
            if i < before.len() {
                assert(after[i] == before[i]);
                let j = choose|j: int| 0 <= j < front.len() && front[j] == before[i];
                assert(path[j] == after[i]);
            } else {
                assert(path[path.len() - 1] == after[i]);
            }
        }
    }
}

/// The cost of a plan is the size of its message: three bytes, and the payload that is sent, with
/// floats at their full size. A plan without actions costs nothing, and one with actions something.
pub proof fn law_plans_cost_what_is_sent(acts: Seq<Act>, base: Seq<Segment>)
    ensures
        acts.len() == 0 <==> cost::plan_cost(acts, base) == 0,
        acts.len() > 0 && 3 + cbor::cbor_size(encoder::paired_payload(acts, base, base))
            <= usize::MAX ==> cost::plan_cost(acts, base) == 3 + cbor::cbor_size(
            encoder::paired_payload(acts, base, base),
        ),
{
}

/// The size of an item is that of its head and of what it holds. A head takes up one byte for an
/// argument below 24, and two, three, five or nine bytes for one that fits one, two, four or eight
/// bytes.
pub proof fn law_sizes_add_up(items: Seq<cbor::Cbor>, item: cbor::Cbor)
    ensures
        cbor::cbor_size(cbor::Cbor::Array(Seq::empty())) == 1,
        cbor::cbor_size(cbor::Cbor::Array(items.push(item))) == cbor::cbor_size(
            cbor::Cbor::Array(items),
        ) + cbor::cbor_size(item) + cbor::head_size(items.len() as int + 1) - cbor::head_size(
            items.len() as int,
        ),
        forall|n: int| 0 <= n < 24 ==> #[trigger] cbor::head_size(n) == 1,
        forall|n: int| 24 <= n < 0x100 ==> #[trigger] cbor::head_size(n) == 2,
        forall|n: int| 0x100 <= n < 0x1_0000 ==> #[trigger] cbor::head_size(n) == 3,
        forall|n: int| 0x1_0000 <= n < 0x1_0000_0000 ==> #[trigger] cbor::head_size(n) == 5,
        forall|n: int| 0x1_0000_0000 <= n ==> #[trigger] cbor::head_size(n) == 9,
{
    let all = items.push(item);
    lemma_first_items(items, all, items.len());
    let empty = cbor::Cbor::Array(Seq::empty());
    assert(empty->Array_0.len() == 0);
    assert(cbor::items_size(empty->Array_0, 0) == 0);
    let longer = cbor::Cbor::Array(all);
    assert(longer->Array_0 == all);
    assert(all[items.len() as int] == item);
    assert(cbor::items_size(all, all.len()) == cbor::items_size(all, items.len())
        + cbor::cbor_size(item));
}

proof fn lemma_first_items(a: Seq<cbor::Cbor>, b: Seq<cbor::Cbor>, count: nat)
    requires
        count <= a.len(),
        count <= b.len(),
        forall|i: int| 0 <= i < count ==> a[i] == b[i],
    ensures
        cbor::items_size(a, count) == cbor::items_size(b, count),
    decreases count,
{
    if count > 0 {
        lemma_first_items(a, b, (count - 1) as nat);
        assert(a[count - 1] == b[count - 1]);
    }
}

/// The common prefix is the longest one: so many items from the front on are alike, and no more.
pub proof fn law_prefix_is_longest(p: Problem, len: int)
    requires
        p.well_formed(),
        0 <= len <= p.n,
        len <= p.m,
    ensures
        0 <= sequences::prefix_len(p) <= p.n,
        sequences::prefix_len(p) <= p.m,
        len <= sequences::prefix_len(p) <==> forall|i: int|
            0 <= i < len ==> #[trigger] (p.alike)(i, i),
{
    sequences::lemma_ends(p);
    lemma_snake_ends(p, 0);
    let longest = sequences::prefix_len(p);
    if len > longest {
        assert(!(p.alike)(longest, longest));
    }
}

proof fn lemma_snake_ends(p: Problem, x: int)
    requires
        0 <= x,
    ensures
        ({
            let end = p.snake(x, x);
            end >= p.n || end >= p.m || !(p.alike)(end, end)
        }),
    decreases p.n - x,
{
    if x < p.n && x < p.m && (p.alike)(x, x) {
        lemma_snake_ends(p, x + 1);
    }
}

/// A shortest script is looked for just when there is something on both sides and the search is
/// affordable: up to a hundred thousand pairs of items, and two million cells.
pub proof fn law_affordable_scripts_are_looked_for(n: int, m: int)
    ensures
        sequences::worth_a_script(n, m) <==> n > 0 && m > 0 && n * m <= 100_000 && (n + m + 1) * (2
            * (n + m) + 3) <= 2_000_000,
{
}

/// A property that is added with the value of an unchanged one is copied from it, where that costs
/// less than adding it and no other unchanged property has the same digest.
pub proof fn law_repeated_values_are_copied(
    old: Seq<(Seq<char>, Json)>,
    new: Seq<(Seq<char>, Json)>,
    source: Seq<char>,
    key: Seq<char>,
    path: Seq<Segment>,
    base: Seq<Segment>,
)
    requires
        string_map::sorted(old),
        string_map::sorted(new),
        string_map::value_of(old, source) is Some,
        string_map::value_of(new, source) is Some,
        json::same(
            string_map::value_of(old, source)->0,
            string_map::value_of(new, source)->0,
        ),
        string_map::value_of(new, key) is Some,
        json::same(
            string_map::value_of(new, source)->0,
            string_map::value_of(new, key)->0,
        ),
        forall|k: Seq<char>|
            k != source && (#[trigger] string_map::value_of(old, k)) is Some
                && string_map::value_of(new, k) is Some ==> digest::digest(
                string_map::value_of(new, k)->0,
            ) != digest::digest(string_map::value_of(new, key)->0),
        cost::plan_cost(
            seq![
                Act::Copy {
                    from: path.push(Segment::Key(source)),
                    path: path.push(Segment::Key(key)),
                },
            ],
            base,
        ) < cost::plan_cost(
            seq![
                Act::Add {
                    path: path.push(Segment::Key(key)),
                    value: string_map::value_of(new, key)->0,
                },
            ],
            base,
        ),
    ensures
        objects::copy_source(key, old, new, path, base) == Some(source),
{
    let sources = objects::unchanged_keys(old, new);
    let value = string_map::lookup(new, key);
    let wanted = digest::digest(value);
    objects::lemma_selected(old, objects::unchanged(old, new), old.len());
    string_map::lemma_slot_range(old, source);
    assert(sources.contains(source));
    let at = choose|at: int| 0 <= at < sources.len() && sources[at] == source;
    digest::law_equal_values_have_equal_digests(string_map::lookup(new, source), value);
    assert forall|i: int| 0 <= i < at implies digest::digest(
        string_map::lookup(new, #[trigger] sources[i]),
    ) != wanted by {
        assert(sources.contains(sources[i]));
        assert(string_map::value_of(old, sources[i]) is Some);
        assert(string_map::value_of(new, sources[i]) is Some);
        assert(sources[i] != source);
    }
    lemma_first_digest_is(sources, new, wanted, 0, at);
}

proof fn lemma_first_digest_is(
    keys: Seq<Seq<char>>,
    entries: Seq<(Seq<char>, Json)>,
    wanted: Seq<u8>,
    from: int,
    at: int,
)
    requires
        0 <= from <= at < keys.len(),
        digest::digest(string_map::lookup(entries, keys[at])) == wanted,
        forall|i: int|
            from <= i < at ==> digest::digest(string_map::lookup(entries, #[trigger] keys[i]))
                != wanted,
    ensures
        objects::first_digest(keys, entries, wanted, from) == Some(at),
    decreases at - from,
{
    if from < at {
        assert(digest::digest(string_map::lookup(entries, keys[from])) != wanted);
        lemma_first_digest_is(keys, entries, wanted, from + 1, at);
    }
}

/// The message that follows others carries the plan from the document that was sent last to the
/// current one.
pub proof fn law_later_messages_carry_the_plan(producer: ProducerModel)
    requires
        producer.emitted is Some,
    ensures
        producer.next_acts() == diff::diff(
            producer.emitted->0,
            producer.current,
            Seq::empty(),
            producer.pool,
            producer.array_patches,
        ),
        producer.next_payload() == encoder::paired_payload(
            producer.next_acts(),
            producer.pool,
            producer.pool,
        ),
{
}

/// The only values that are changed part by part whatever that costs: without array patches, an
/// array under a key of the root that loses or gains items at its end only, and a root that holds
/// one.
pub proof fn law_only_end_changes_are_exempt_from_cost(
    from: Json,
    to: Json,
    path: Seq<Segment>,
    patches: bool,
)
    requires
        json::valid(from),
        diff::in_parts(from, to, path, patches),
    ensures
        !patches,
        path.len() <= 1,
        path.len() == 1 ==> path[0] is Key && ends_differ(from, to),
        path.len() == 0 ==> {
            &&& from matches Json::Object(old)
            &&& to matches Json::Object(new)
            &&& exists|key: Seq<char>|
                {
                    &&& (#[trigger] string_map::value_of(from->Object_0, key)) is Some
                    &&& string_map::value_of(to->Object_0, key) is Some
                    &&& ends_differ(
                        string_map::value_of(from->Object_0, key)->0,
                        string_map::value_of(to->Object_0, key)->0,
                    )
                }
        },
{
    if path.len() == 0 {
        let old = from->Object_0;
        let new = to->Object_0;
        let i = choose|i: int|
            0 <= i < old.len() && string_map::has_key(new, (#[trigger] old[i]).0)
                && diff::only_end_differs(old[i].1, string_map::lookup(new, old[i].0));
        let key = old[i].0;
        string_map::lemma_slot_of(old, i);
        assert(string_map::value_of(old, key) is Some);
    }
}

/// Whether two values are arrays of different lengths that are the same as far as both go.
pub open spec fn ends_differ(from: Json, to: Json) -> bool {
    match (from, to) {
        (Json::Array(a), Json::Array(b)) => {
            &&& a.len() != b.len()
            &&& forall|i: int|
                0 <= i < a.len() && i < b.len() ==> json::same(#[trigger] a[i], b[i])
        },
        _ => false,
    }
}

} // verus!
