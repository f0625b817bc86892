//! A consumer that consumes the messages of a producer has the producer's document.

use vstd::prelude::*;

use crate::apply;
use crate::apply::Step;
use crate::cbor::Cbor;
use crate::consumer;
use crate::consumer::ConsumerModel;
use crate::error;
use crate::error::ErrorModel;
use crate::json;
use crate::json::Json;
use crate::laws::delivery;
use crate::laws::diff;
use crate::laws::normal;
use crate::laws::objects;
use crate::laws::paths;
use crate::message::action::{Act, Segment};
use crate::message::decoder;
use crate::message::decoder::Notation;
use crate::message::encoder;
use crate::message::json_cbor;
use crate::message::laws;
use crate::producer;
use crate::producer::cost;
use crate::producer::ProducerModel;
use crate::string_map;

verus! {

/// Actions that can be held in memory have no negative positions.
proof fn lemma_counted(acts: Seq<Act>)
    requires
        delivery::all_deliverable(acts),
    ensures
        forall|i: int| 0 <= i < acts.len() ==> normal::counted_act(#[trigger] acts[i]),
{
    assert forall|i: int| 0 <= i < acts.len() implies normal::counted_act(#[trigger] acts[i]) by {
        assert(delivery::deliverable(acts[i]));
        match acts[i] {
            Act::Copy { from, path } => {
                lemma_both_counted(from, path);
            },
            Act::Move { from, path } => {
                lemma_both_counted(from, path);
            },
            Act::ArrayPatch { path, edits } => {
                assert forall|j: int| 0 <= j < edits.len() implies (#[trigger] edits[j]).start >= 0
                    && edits[j].delete_count >= 0 by {
                    assert(laws::representable_array_edit(edits[j]));
                }
            },
            _ => {},
        }
    }
}

proof fn lemma_both_counted(from: Seq<Segment>, path: Seq<Segment>)
    requires
        laws::representable_path(from + path),
    ensures
        paths::counted(from),
        paths::counted(path),
{
    assert forall|i: int| 0 <= i < from.len() implies (#[trigger] from[i] matches Segment::Index(n)
        ==> n >= 0) by {
        assert((from + path)[i] == from[i]);
    }
    assert forall|i: int| 0 <= i < path.len() implies (#[trigger] path[i] matches Segment::Index(n)
        ==> n >= 0) by {
        assert((from + path)[from.len() + i] == path[i]);
    }
}

/// Applying the plan that turns one document into another, to a document that is the same as the
/// first, succeeds and gives one that is the same as the second. A plan that copies or moves from
/// a path with `-` in it is left out: the consumer refuses it.
pub proof fn law_plan_leads_to_the_new_document(
    document: Json,
    from: Json,
    to: Json,
    pool: Seq<Segment>,
    patches: bool,
)
    requires
        json::same(document, from),
        json::valid(from),
        json::in_memory(from),
        json_cbor::sound(to),
        objects::dash_free_sources(
            producer::diff::diff(from, to, Seq::empty(), pool, patches),
        ),
    ensures
        ({
            let acts = producer::diff::diff(from, to, Seq::empty(), pool, patches);
            consumer::run(document, acts, acts.len()) matches Ok(after) && json::same(after, to)
        }),
{
    let path = Seq::<Segment>::empty();
    let acts = producer::diff::diff(from, to, path, pool, patches);
    delivery::lemma_diff(from, to, path, pool, patches);
    lemma_counted(acts);
    diff::lemma_diff(json::norm(document), path, from, to, pool, patches);
    normal::lemma_norm_run(document, acts, acts.len());
    reveal(paths::leads);
    assert(normal::norm_acts(acts).len() == acts.len());
}

/// Nothing is done to the values of objects that are the same.
proof fn lemma_no_entry_acts(
    old: Seq<(Seq<char>, Json)>,
    new: Seq<(Seq<char>, Json)>,
    path: Seq<Segment>,
    pool: Seq<Segment>,
    patches: bool,
    count: nat,
)
    requires
        normal::norm_entries(old) == normal::norm_entries(new),
        string_map::sorted(old),
        count <= old.len(),
    ensures
        producer::diff::entry_acts(old, new, path, pool, patches, count).len() == 0,
    decreases count,
{
    if count > 0 {
        lemma_no_entry_acts(old, new, path, pool, patches, (count - 1) as nat);
        let key = old[count - 1].0;
        string_map::lemma_slot_of(old, count - 1);
        normal::lemma_norm_lookup(old, key);
        normal::lemma_norm_lookup(new, key);
        let entry = old[count - 1];
        let value = string_map::lookup(new, key);
        let child = producer::objects::property(path, key);
        assert(json::same(entry.1, value));
        assert(producer::diff::diff(entry.1, value, child, pool, patches).len() == 0);
        let before = producer::diff::entry_acts(old, new, path, pool, patches, (count - 1) as nat);
        assert(producer::diff::entry_acts(old, new, path, pool, patches, count) == before
            || producer::diff::entry_acts(old, new, path, pool, patches, count) == before
            + producer::diff::diff(entry.1, value, child, pool, patches));
    }
}

/// Nothing is done to objects that are the same.
proof fn lemma_no_object_acts(
    old: Seq<(Seq<char>, Json)>,
    new: Seq<(Seq<char>, Json)>,
    path: Seq<Segment>,
    pool: Seq<Segment>,
    patches: bool,
)
    requires
        normal::norm_entries(old) == normal::norm_entries(new),
        string_map::sorted(old),
        string_map::sorted(new),
    ensures
        producer::diff::object_acts(old, new, path, pool, patches).len() == 0,
{
    let removed = producer::objects::removed_keys(old, new);
    let added = producer::objects::added_keys(old, new);
    producer::objects::lemma_selected(old, producer::objects::occurring(new, false), old.len());
    producer::objects::lemma_selected(new, producer::objects::occurring(old, false), new.len());
    if removed.len() > 0 {
        assert(removed.contains(removed[0]));
        normal::lemma_norm_lookup(old, removed[0]);
        normal::lemma_norm_lookup(new, removed[0]);
    }
    if added.len() > 0 {
        assert(added.contains(added[0]));
        normal::lemma_norm_lookup(old, added[0]);
        normal::lemma_norm_lookup(new, added[0]);
    }
    lemma_no_entry_acts(old, new, path, pool, patches, old.len());
}

/// Applying the plan that changes the properties of an object, to a document in which an object
/// that is the same stands at the path, succeeds. It puts the new object there, and leaves the rest
/// of the document alone. The plan is empty just when the objects are the same. A plan that copies
/// or moves from a path with `-` in it is left out: the consumer refuses it.
pub proof fn law_object_plan_leads_to_the_new_object(
    document: Json,
    path: Seq<Segment>,
    object: Json,
    old: Seq<(Seq<char>, Json)>,
    new: Seq<(Seq<char>, Json)>,
    pool: Seq<Segment>,
    patches: bool,
)
    requires
        laws::representable_path(path),
        paths::found(document, path, object),
        json::same(object, Json::Object(old)),
        json::valid(Json::Object(old)),
        json::in_memory(Json::Object(old)),
        json_cbor::sound(Json::Object(new)),
        objects::dash_free_sources(
            producer::diff::object_acts(old, new, path, pool, patches),
        ),
    ensures
        ({
            let acts = producer::diff::object_acts(old, new, path, pool, patches);
            &&& consumer::run(document, acts, acts.len()) matches Ok(after) && json::same(
                after,
                apply::put(document, path, 0, Json::Object(new)),
            )
            &&& acts.len() == 0 <==> json::same(Json::Object(old), Json::Object(new))
        }),
{
    let acts = producer::diff::object_acts(old, new, path, pool, patches);
    let from = Json::Object(old);
    let to = Json::Object(new);
    assert(from->Object_0 == old && to->Object_0 == new);
    normal::lemma_norm_object(old);
    normal::lemma_norm_object(new);
    delivery::lemma_object(old, new, path, pool, patches);
    lemma_counted(acts);
    normal::lemma_norm_resolve(document, path, 0, Step::Target);
    let root = json::norm(document);
    diff::lemma_object(root, path, old, new, pool, patches);
    normal::lemma_norm_run(document, acts, acts.len());
    reveal(paths::leads);
    assert(normal::norm_acts(acts).len() == acts.len());
    let end = apply::put(root, path, 0, json::norm(to));
    assert(json::norm(apply::put(document, path, 0, to)) == end);
    if acts.len() == 0 {
        paths::lemma_put(root, path, 0, json::norm(from), json::norm(to), json::norm(to));
        assert(root == end);
    }
    if json::same(from, to) {
        lemma_no_object_acts(old, new, path, pool, patches);
    }
}

/// Documents that differ have a plan with at least one action.
pub proof fn law_changed_documents_have_a_plan(
    from: Json,
    to: Json,
    pool: Seq<Segment>,
    patches: bool,
)
    requires
        json::valid(from),
        json::in_memory(from),
        json::valid(to),
        !json::same(from, to),
    ensures
        producer::diff::diff(from, to, Seq::empty(), pool, patches).len() > 0,
{
    let path = Seq::<Segment>::empty();
    let acts = producer::diff::diff(from, to, path, pool, patches);
    if acts.len() == 0 {
        diff::lemma_diff(json::norm(from), path, from, to, pool, patches);
        reveal(paths::leads);
        assert(normal::norm_acts(acts).len() == 0);
    }
}

/// A plan never costs more than replacing the value, unless the value is changed in parts whatever
/// that costs.
pub proof fn law_plan_costs_no_more_than_replacing(
    from: Json,
    to: Json,
    path: Seq<Segment>,
    pool: Seq<Segment>,
    patches: bool,
)
    requires
        !producer::diff::in_parts(from, to, path, patches),
    ensures
        cost::plan_cost(producer::diff::diff(from, to, path, pool, patches), pool)
            <= cost::plan_cost(seq![Act::Replace { path, value: to }], pool),
{
}

/// A message that is due can be sent if the numbers of the current document are safe: it has
/// actions, these can be encoded, and the decoder accepts them. The producer stays well-formed as
/// long as its pool can be held in memory.
pub proof fn law_due_message_can_be_sent(producer: ProducerModel)
    requires
        producer.well_formed(),
        !producer.up_to_date(),
        json_cbor::first_unsafe(producer.current) is None,
    ensures
        producer.next_acts().len() > 0,
        laws::sendable(producer.next_acts()),
        producer.after_message().pool.len() <= isize::MAX
            ==> producer.after_message().well_formed(),
{
    let acts = producer.next_acts();
    assert(delivery::all_deliverable(acts)) by {
        match producer.emitted {
            None => {
                assert(delivery::deliverable(acts[0]));
            },
            Some(document) => {
                delivery::lemma_diff(
                    document,
                    producer.current,
                    Seq::empty(),
                    producer.pool,
                    producer.array_patches,
                );
            },
        }
    }
    if let Some(document) = producer.emitted {
        law_changed_documents_have_a_plan(
            document,
            producer.current,
            producer.pool,
            producer.array_patches,
        );
    }
    lemma_sendable(acts);
    encoder::lemma_absorb_acts(producer.pool, acts, acts.len());
    laws::lemma_added_representable(producer.pool, acts, acts.len());
}

proof fn lemma_sendable(acts: Seq<Act>)
    requires
        delivery::all_deliverable(acts),
    ensures
        laws::sendable(acts),
{
    assert forall|i: int| 0 <= i < acts.len() implies laws::representable(#[trigger] acts[i])
        && laws::array_patch_has_effect(acts[i]) by {
        assert(delivery::deliverable(acts[i]));
    }
    assert(encoder::all_safe(acts)) by {
        assert forall|i: int| 0 <= i < acts.len() implies encoder::first_unsafe_number(
            #[trigger] acts[i],
        ) is None by {
            assert(delivery::deliverable(acts[i]));
        }
    }
    encoder::lemma_all_safe(acts, acts.len());
}

/// Whether a consumer has consumed the messages of a producer: their pools are the same, and if
/// there was a message, the consumer has the document that it led to.
pub open spec fn in_step(producer: ProducerModel, consumer: ConsumerModel) -> bool {
    &&& consumer.pool == producer.pool
    &&& producer.emitted matches Some(emitted) ==> {
        &&& consumer.initialized
        &&& consumer.document matches Some(document) && json::same(document, emitted)
    }
}

/// A new producer and a new consumer are in step.
pub proof fn law_new_pair_is_in_step(document: Json)
    ensures
        in_step(producer::fresh_producer(document), consumer::empty_consumer()),
{
}

/// Updating the document of a producer keeps a consumer in step.
pub proof fn law_update_keeps_in_step(
    producer: ProducerModel,
    consumer: ConsumerModel,
    document: Json,
)
    requires
        in_step(producer, consumer),
    ensures
        in_step(ProducerModel { current: document, ..producer }, consumer),
{
}

/// A consumer that is in step with a producer consumes its next message, and is in step again: it
/// has the producer's current document. A message that copies or moves from a path with `-` in it
/// is left out: the consumer refuses it.
pub proof fn law_consumer_follows_producer(
    producer: ProducerModel,
    consumer: ConsumerModel,
    bytes: Seq<u8>,
)
    requires
        producer.well_formed(),
        in_step(producer, consumer),
        !producer.up_to_date(),
        json_cbor::first_unsafe(producer.current) is None,
        objects::dash_free_sources(producer.next_acts()),
        producer.after_message().well_formed(),
        encoder::carries(bytes, producer.next_payload()),
    ensures
        consumer::after_message(consumer, bytes) matches Ok(after) && {
            &&& in_step(producer.after_message(), after)
            &&& after.document matches Some(document) && json::same(document, producer.current)
        },
{
    let acts = producer.next_acts();
    law_due_message_can_be_sent(producer);
    laws::law_paired_message_round_trip(acts, producer.pool, bytes);
    match producer.emitted {
        None => {
            let start = match consumer.document {
                Some(document) => document,
                None => Json::Null,
            };
            assert(consumer::run(start, acts, 0) == Ok::<Json, ErrorModel>(start));
            assert(acts[0] == Act::Snapshot { value: producer.current });
            assert(consumer::run(start, acts, 1) == Ok::<Json, ErrorModel>(producer.current));
        },
        Some(emitted) => {
            let document = consumer.document->0;
            law_plan_leads_to_the_new_document(
                document,
                emitted,
                producer.current,
                producer.pool,
                producer.array_patches,
            );
        },
    }
}

/// A message whose payload is an empty array has no actions: a consumer that has a document
/// consumes it and stays as it is.
pub proof fn law_empty_message_changes_nothing(consumer: ConsumerModel, bytes: Seq<u8>)
    requires
        consumer.initialized,
        consumer.document is Some,
        encoder::carries(bytes, Cbor::Array(Seq::empty())),
    ensures
        consumer::after_message(consumer, bytes) == Ok::<ConsumerModel, ErrorModel>(consumer),
{
    let payload = Cbor::Array(Seq::empty());
    let items = payload->Array_0;
    let results = decoder::act_results(items, Notation::Inline);
    assert(decoder::payload_of(bytes) == Ok::<Cbor, ErrorModel>(payload));
    assert(error::gather(results, 0) == Ok::<Seq<Act>, ErrorModel>(Seq::empty()));
}

/// A message whose payload is a bare list of actions leaves the pool as it is.
pub proof fn law_bare_messages_leave_the_pool_alone(
    bytes: Seq<u8>,
    pool: Seq<Segment>,
    items: Seq<Cbor>,
)
    requires
        encoder::carries(bytes, Cbor::Array(items)),
        decoder::is_bare(items),
    ensures
        decoder::decode(bytes, pool) == (
            pool,
            decoder::parse_acts(Cbor::Array(items), Notation::Inline),
        ),
{
    let payload = Cbor::Array(items);
    assert(payload->Array_0 == items);
    assert(decoder::payload_of(bytes) == Ok::<Cbor, ErrorModel>(payload));
}

/// What a consumer refuses: a message that copies or moves from a path with `-` in it fails.
pub proof fn law_dash_sources_are_refused(document: Json, act: Act)
    requires
        !objects::dash_free_sources(seq![act]),
    ensures
        apply::apply_act(document, act) is Err,
{
    let from = match act {
        Act::Copy { from, .. } => from,
        Act::Move { from, .. } => from,
        _ => Seq::empty(),
    };
    assert(seq![act][0] == act);
    let i = choose|i: int| 0 <= i < from.len() && #[trigger] from[i] == Segment::Key("-"@);
    lemma_refused(from, i, from.len());
}

proof fn lemma_refused(from: Seq<Segment>, i: int, count: nat)
    requires
        0 <= i < count <= from.len(),
        from[i] == Segment::Key("-"@),
    ensures
        apply::from_path_error(from, count) is Some,
    decreases count,
{
    if i < count - 1 {
        lemma_refused(from, i, (count - 1) as nat);
    }
}

} // verus!
