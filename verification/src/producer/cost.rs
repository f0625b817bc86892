//! Estimation of the size of messages, by which the producer chooses between plans.

use vstd::prelude::*;

use crate::cbor;
use crate::cbor::Cbor;
use crate::error::JsyncError;
use crate::json;
use crate::json::{Json, JsonValue, Number};
use crate::message::action;
use crate::message::action::{
    Act, Action, ArrayPatchEdit, PathSegment, Segment, StringPatchEdit,
};
use crate::message::encoder;
use crate::message::json_cbor;
use crate::message::opcode;
use crate::message::pool;
use crate::message::pool::ProducerPathSegmentPool;
use crate::message::Message;

verus! {

/// A size as a machine number, which stops at the largest one.
pub open spec fn capped(size: int) -> int {
    if size > usize::MAX {
        usize::MAX as int
    } else {
        size
    }
}

/// The cost of a plan: the size of its message, with every float taken at its full size. A plan
/// without actions costs nothing.
pub open spec fn plan_cost(acts: Seq<Act>, pool: Seq<Segment>) -> int {
    if acts.len() == 0 {
        0
    } else {
        capped((3 + cbor::cbor_size(encoder::paired_payload(acts, pool, pool))) as int)
    }
}

/// The size of the first `count` indexes of a path.
pub open spec fn indexes_size(path: Seq<Segment>, pool: Seq<Segment>, count: nat) -> nat
    decreases count,
{
    if count == 0 || count > path.len() {
        0
    } else {
        indexes_size(path, pool, (count - 1) as nat) + cbor::head_size(
            pool.index_of(path[count - 1]),
        )
    }
}

/// The size of the first `count` actions.
pub open spec fn acts_size(acts: Seq<Act>, pool: Seq<Segment>, count: nat) -> nat
    decreases count,
{
    if count == 0 || count > acts.len() {
        0
    } else {
        acts_size(acts, pool, (count - 1) as nat) + cbor::cbor_size(
            encoder::act_cbor(acts[count - 1], pool),
        )
    }
}

proof fn lemma_path_size(path: Seq<Segment>, pool: Seq<Segment>, count: nat)
    requires
        count <= path.len(),
        forall|i: int| 0 <= i < path.len() ==> pool.contains(#[trigger] path[i]),
    ensures
        cbor::items_size(encoder::path_cbor(path, pool)->Array_0, count) == indexes_size(
            path,
            pool,
            count,
        ),
    decreases count,
{
    if count > 0 {
        lemma_path_size(path, pool, (count - 1) as nat);
        let items = encoder::path_cbor(path, pool)->Array_0;
        assert(items[count - 1] == Cbor::Integer(pool.index_of(path[count - 1])));
        assert(pool.contains(path[count - 1]));
        assert(cbor::cbor_size(items[count - 1]) == cbor::head_size(
            pool.index_of(path[count - 1]),
        ));
    }
}

proof fn lemma_indexes_size_stable(
    path: Seq<Segment>,
    later: Seq<Segment>,
    earlier: Seq<Segment>,
    count: nat,
)
    requires
        count <= path.len(),
        pool::extends(later, earlier),
        later.no_duplicates(),
        forall|i: int| 0 <= i < count ==> earlier.contains(#[trigger] path[i]),
    ensures
        indexes_size(path, later, count) == indexes_size(path, earlier, count),
    decreases count,
{
    if count > 0 {
        lemma_indexes_size_stable(path, later, earlier, (count - 1) as nat);
        pool::law_indexes_are_stable(later, earlier, path[count - 1]);
    }
}

proof fn lemma_acts_size(acts: Seq<Act>, pool: Seq<Segment>, count: nat)
    requires
        count <= acts.len(),
    ensures
        cbor::items_size(encoder::acts_cbor(acts, pool)->Array_0, count) == acts_size(
            acts,
            pool,
            count,
        ),
    decreases count,
{
    if count > 0 {
        lemma_acts_size(acts, pool, (count - 1) as nat);
        let items = encoder::acts_cbor(acts, pool)->Array_0;
        assert(items[count - 1] == encoder::act_cbor(acts[count - 1], pool));
    }
}

proof fn lemma_acts_size_stable(
    acts: Seq<Act>,
    later: Seq<Segment>,
    earlier: Seq<Segment>,
    count: nat,
)
    requires
        count <= acts.len(),
        pool::extends(later, earlier),
        later.no_duplicates(),
        forall|i: int, j: int|
            0 <= i < count && 0 <= j < encoder::segments_of(acts[i]).len() ==> earlier.contains(
                #[trigger] encoder::segments_of(acts[i])[j],
            ),
    ensures
        acts_size(acts, later, count) == acts_size(acts, earlier, count),
    decreases count,
{
    if count > 0 {
        lemma_acts_size_stable(acts, later, earlier, (count - 1) as nat);
        encoder::lemma_act_cbor_stable(acts[count - 1], later, earlier);
    }
}

/// The size of an array of one item.
pub proof fn lemma_size_one(a: Cbor)
    ensures
        cbor::cbor_size(Cbor::Array(seq![a])) == 1 + cbor::cbor_size(a),
{
    let items = seq![a];
    assert(cbor::items_size(items, 0) == 0);
    assert(cbor::items_size(items, 1) == cbor::cbor_size(items[0]));
}

/// The size of an array of two items.
pub proof fn lemma_size_two(a: Cbor, b: Cbor)
    ensures
        cbor::cbor_size(Cbor::Array(seq![a, b])) == 1 + cbor::cbor_size(a) + cbor::cbor_size(b),
{
    let items = seq![a, b];
    assert(cbor::items_size(items, 0) == 0);
    assert(cbor::items_size(items, 1) == cbor::cbor_size(items[0]));
    assert(cbor::items_size(items, 2) == cbor::items_size(items, 1) + cbor::cbor_size(items[1]));
}

/// The size of an array of three items.
pub proof fn lemma_size_three(a: Cbor, b: Cbor, c: Cbor)
    ensures
        cbor::cbor_size(Cbor::Array(seq![a, b, c])) == 1 + cbor::cbor_size(a) + cbor::cbor_size(b)
            + cbor::cbor_size(c),
{
    let items = seq![a, b, c];
    assert(cbor::items_size(items, 0) == 0);
    assert(cbor::items_size(items, 1) == cbor::cbor_size(items[0]));
    assert(cbor::items_size(items, 2) == cbor::items_size(items, 1) + cbor::cbor_size(items[1]));
    assert(cbor::items_size(items, 3) == cbor::items_size(items, 2) + cbor::cbor_size(items[2]));
}

/// The size of an item head.
fn cbor_argument_len(value: u64) -> (len: usize)
    ensures
        len == cbor::head_size(value as int),
{
    if value < 24 {
        1
    } else if value < 0x100 {
        2
    } else if value < 0x1_0000 {
        3
    } else if value < 0x1_0000_0000 {
        5
    } else {
        9
    }
}

/// The size of a text.
fn cbor_text_len(value: &str) -> (len: usize)
    ensures
        len == capped(cbor::cbor_size(Cbor::Text(value@)) as int),
{
    let length: usize = value.as_bytes().len();
    cbor_argument_len(length as u64).saturating_add(length)
}

/// The size of an integer that may stand in a message.
fn cbor_int_len(value: i128) -> (len: usize)
    requires
        json_cbor::safe_number(Number::Integer(value)),
    ensures
        len == cbor::cbor_size(Cbor::Integer(value as int)),
{
    if value >= 0 {
        cbor_argument_len(value as u64)
    } else {
        cbor_argument_len((-1 - value) as u64)
    }
}

/// Estimates the size of a number.
fn estimate_json_number_len(number: Number) -> (result: Result<usize, JsyncError>)
    ensures
        match result {
            Ok(len) => {
                &&& json_cbor::safe_number(number)
                &&& len == cbor::cbor_size(json_cbor::to_cbor(Json::Number(number)))
            },
            Err(e) => {
                &&& !json_cbor::safe_number(number)
                &&& e@ == json_cbor::unsafe_number_error(number)
            },
        },
{
    match json_cbor::validate_safe_json_number(number) {
        Ok(_) => match number {
            Number::Integer(n) => Ok(cbor_int_len(n)),
            Number::Float(_) => Ok(9),
        },
        Err(e) => Err(e),
    }
}

/// Estimates the size of a value.
fn estimate_json_value_len(value: &JsonValue) -> (result: Result<usize, JsyncError>)
    ensures
        match result {
            Ok(len) => {
                &&& json_cbor::first_unsafe(value@) is None
                &&& len == capped(cbor::cbor_size(json_cbor::to_cbor(value@)) as int)
            },
            Err(e) => {
                &&& json_cbor::first_unsafe(value@) is Some
                &&& e@ == json_cbor::unsafe_number_error(json_cbor::first_unsafe(value@)->0)
            },
        },
    decreases value@,
{
    broadcast use {
        json::lemma_array_view,
        json::lemma_object_view,
        json_cbor::lemma_array_cbor,
        json_cbor::lemma_object_cbor,
    };

    match value {
        JsonValue::Null => Ok(1),
        JsonValue::Bool(_) => Ok(1),
        JsonValue::Number(number) => estimate_json_number_len(*number),
        JsonValue::String(s) => Ok(cbor_text_len(s.as_str())),
        JsonValue::Array(values) => {
            let ghost items = json::json_views(values@);
            let ghost encoded = json_cbor::cbors(items);
            let mut total: usize = cbor_argument_len(values.len() as u64);
            let ghost head = total;
            let mut i: usize = 0;
            while i < values.len()
                invariant
                    i <= values@.len(),
                    items == json::json_views(values@),
                    encoded == json_cbor::cbors(items),
                    value@ == Json::Array(items),
                    json_cbor::first_unsafe_item(items, i as nat) is None,
                    total == capped(head + cbor::items_size(encoded, i as nat)),
                decreases values@.len() - i,
            {
                proof {
                    json::lemma_item_smaller(items, i as int);
                    assert(items[i as int] == values@[i as int]@);
                    assert(encoded[i as int] == json_cbor::to_cbor(items[i as int]));
                }
                match estimate_json_value_len(&values[i]) {
                    Ok(len) => {
                        total = total.saturating_add(len);
                    },
                    Err(e) => {
                        proof {
                            json_cbor::lemma_first_unsafe_item(items, i as nat + 1);
                        }
                        return Err(e);
                    },
                }
                i = i + 1;
            }
            assert(encoded.len() == values@.len());
            Ok(total)
        },
        JsonValue::Object(object) => {
            let ghost entries = json::entry_views(object.entries());
            let ghost encoded = json_cbor::cbor_entries(entries);
            let count: usize = object.len();
            let mut total: usize = cbor_argument_len(count as u64);
            let ghost head = total;
            let mut i: usize = 0;
            while i < count
                invariant
                    i <= count == entries.len(),
                    entries == json::entry_views(object.entries()),
                    encoded == json_cbor::cbor_entries(entries),
                    value@ == Json::Object(entries),
                    json_cbor::first_unsafe_entry(entries, i as nat) is None,
                    total == capped(head + cbor::pairs_size(encoded, i as nat)),
                decreases count - i,
            {
                proof {
                    json::lemma_entry_smaller(entries, i as int);
                    assert(entries[i as int].1 == object.entries()[i as int].1@);
                    assert(encoded[i as int] == (
                        Cbor::Text(entries[i as int].0),
                        json_cbor::to_cbor(entries[i as int].1),
                    ));
                }
                total = total.saturating_add(cbor_text_len(object.key_at(i).as_str()));
                match estimate_json_value_len(object.value_at(i)) {
                    Ok(len) => {
                        total = total.saturating_add(len);
                    },
                    Err(e) => {
                        proof {
                            json_cbor::lemma_first_unsafe_entry(entries, i as nat + 1);
                        }
                        return Err(e);
                    },
                }
                i = i + 1;
            }
            assert(encoded.len() == count);
            Ok(total)
        },
    }
}

/// Estimates the size of the messages of one plan. Segments that the plan adds to the pool count
/// twice: as indexes in its paths, and in the metadata.
struct CostEstimator<'a> {
    path_segment_pool: &'a ProducerPathSegmentPool,
    appended: ProducerPathSegmentPool,
}

impl<'a> CostEstimator<'a> {
    spec fn total(self) -> Seq<Segment> {
        self.path_segment_pool@ + self.appended@
    }

    spec fn well_formed(self) -> bool {
        self.total().no_duplicates()
    }

    fn new(path_segment_pool: &'a ProducerPathSegmentPool) -> (estimator: Self)
        ensures
            estimator.well_formed(),
            estimator.total() == path_segment_pool@,
            estimator.path_segment_pool@ == path_segment_pool@,
    {
        let _length: usize = path_segment_pool.len();
        let appended = ProducerPathSegmentPool::new();
        assert(path_segment_pool@ + appended@ =~= path_segment_pool@);
        CostEstimator { path_segment_pool, appended }
    }

    /// Estimates the size of a path.
    fn estimate_path_len(&mut self, path: &[PathSegment]) -> (len: usize)
        requires
            old(self).well_formed(),
        ensures
            final(self).well_formed(),
            final(self).path_segment_pool == old(self).path_segment_pool,
            final(self).total() == pool::absorb_path(
                old(self).total(),
                action::path_view(path@),
            ),
            len == capped(
                cbor::cbor_size(
                    encoder::path_cbor(action::path_view(path@), final(self).total()),
                ) as int,
            ),
    {
        let ghost segments = action::path_view(path@);
        let ghost start = self.total();
        let mut len: usize = cbor_argument_len(path.len() as u64);
        let ghost head = len;
        let mut i: usize = 0;
        assert(segments.take(0) =~= Seq::empty());
        while i < path.len()
            invariant
                i <= path@.len(),
                segments == action::path_view(path@),
                start.no_duplicates(),
                self.well_formed(),
                self.path_segment_pool == old(self).path_segment_pool,
                self.total() == pool::absorb_path(start, segments.take(i as int)),
                len == capped(head + indexes_size(segments, self.total(), i as nat)),
            decreases path@.len() - i,
        {
            let ghost before = self.total();
            let ghost done = segments.take(i as int);
            let index: usize = pool::index_in(
                self.path_segment_pool,
                &mut self.appended,
                &path[i],
            );
            proof {
                let next = segments.take(i as int + 1);
                assert(next.drop_last() =~= done);
                assert(next.last() == path@[i as int]@);
                assert(segments[i as int] == path@[i as int]@);
                pool::lemma_absorb(before, segments[i as int]);
                pool::lemma_absorb_path(start, done);
                assert forall|j: int| 0 <= j < i implies before.contains(
                    #[trigger] segments[j],
                ) by {
                    assert(done[j] == segments[j]);
                }
                lemma_indexes_size_stable(segments, self.total(), before, i as nat);
            }
            len = len.saturating_add(cbor_argument_len(index as u64));
            i = i + 1;
        }
        proof {
            assert(segments.take(i as int) =~= segments);
            pool::lemma_absorb_path(start, segments);
            lemma_path_size(segments, self.total(), segments.len());
        }
        len
    }

    /// Estimates the size of two paths.
    fn estimate_two_paths(&mut self, from: &[PathSegment], path: &[PathSegment]) -> (len: usize)
        requires
            old(self).well_formed(),
        ensures
            final(self).well_formed(),
            final(self).path_segment_pool == old(self).path_segment_pool,
            final(self).total() == pool::absorb_path(
                old(self).total(),
                action::path_view(from@) + action::path_view(path@),
            ),
            len == capped(
                (cbor::cbor_size(
                    encoder::path_cbor(action::path_view(from@), final(self).total()),
                ) + cbor::cbor_size(
                    encoder::path_cbor(action::path_view(path@), final(self).total()),
                )) as int,
            ),
    {
        let ghost start = self.total();
        let first: usize = self.estimate_path_len(from);
        let ghost middle = self.total();
        let second: usize = self.estimate_path_len(path);
        proof {
            encoder::lemma_absorb_two(start, action::path_view(from@), action::path_view(path@));
            pool::lemma_absorb_path(start, action::path_view(from@));
            pool::lemma_absorb_path(middle, action::path_view(path@));
            encoder::lemma_path_cbor_stable(action::path_view(from@), self.total(), middle);
        }
        first.saturating_add(second)
    }

    /// Estimates the size of an action.
    fn estimate_action(&mut self, action: &Action) -> (result: Result<usize, JsyncError>)
        requires
            old(self).well_formed(),
        ensures
            final(self).well_formed(),
            final(self).path_segment_pool == old(self).path_segment_pool,
            final(self).total() == pool::absorb_path(
                old(self).total(),
                encoder::segments_of(action@),
            ),
            match result {
                Ok(len) => {
                    &&& encoder::first_unsafe_number(action@) is None
                    &&& len == capped(
                        cbor::cbor_size(encoder::act_cbor(action@, final(self).total())) as int,
                    )
                },
                Err(e) => {
                    &&& encoder::first_unsafe_number(action@) is Some
                    &&& e@ == json_cbor::unsafe_number_error(
                        encoder::first_unsafe_number(action@)->0,
                    )
                },
            },
    {
        match action {
            Action::Snapshot { value } => match estimate_json_value_len(value) {
                Ok(len) => {
                    proof {
                        lemma_size_two(
                            Cbor::Integer(opcode::OPCODE_SNAPSHOT as int),
                            json_cbor::to_cbor(value@),
                        );
                    }
                    Ok(len.saturating_add(2))
                },
                Err(e) => Err(e),
            },
            Action::Add { path, value } | Action::Replace { path, value } => {
                let path_len: usize = self.estimate_path_len(path.as_slice());
                match estimate_json_value_len(value) {
                    Ok(len) => {
                        proof {
                            let elements = encoder::act_cbor(action@, self.total())->Array_0;
                            lemma_size_three(elements[0], elements[1], elements[2]);
                            assert(elements =~= seq![elements[0], elements[1], elements[2]]);
                            assert(cbor::cbor_size(elements[0]) == 1);
                        }
                        Ok(path_len.saturating_add(2).saturating_add(len))
                    },
                    Err(e) => Err(e),
                }
            },
            Action::Remove { path } => {
                let path_len: usize = self.estimate_path_len(path.as_slice());
                proof {
                    lemma_size_two(
                        Cbor::Integer(opcode::OPCODE_REMOVE as int),
                        encoder::path_cbor(action::path_view(path@), self.total()),
                    );
                }
                Ok(path_len.saturating_add(2))
            },
            Action::StringAppend { path, text } | Action::StringPrepend { path, text } => {
                let path_len: usize = self.estimate_path_len(path.as_slice());
                let text_len: usize = cbor_text_len(text.as_str());
                proof {
                    let elements = encoder::act_cbor(action@, self.total())->Array_0;
                    lemma_size_three(elements[0], elements[1], elements[2]);
                    assert(elements =~= seq![elements[0], elements[1], elements[2]]);
                    assert(cbor::cbor_size(elements[0]) == 1);
                }
                Ok(path_len.saturating_add(2).saturating_add(text_len))
            },
            Action::StringPatch { path, edits } => {
                let path_len: usize = self.estimate_path_len(path.as_slice());
                let edits_len: usize = estimate_string_edits_len(edits.as_slice());
                proof {
                    let elements = encoder::act_cbor(action@, self.total())->Array_0;
                    lemma_size_three(elements[0], elements[1], elements[2]);
                    assert(elements =~= seq![elements[0], elements[1], elements[2]]);
                    assert(cbor::cbor_size(elements[0]) == 1);
                }
                Ok(path_len.saturating_add(2).saturating_add(edits_len))
            },
            Action::ArrayPatch { path, edits } => {
                let path_len: usize = self.estimate_path_len(path.as_slice());
                match estimate_array_edits_len(edits.as_slice()) {
                    Ok(edits_len) => {
                        proof {
                            let elements = encoder::act_cbor(action@, self.total())->Array_0;
                            lemma_size_three(elements[0], elements[1], elements[2]);
                            assert(elements =~= seq![elements[0], elements[1], elements[2]]);
                            assert(cbor::cbor_size(elements[0]) == 1);
                        }
                        Ok(path_len.saturating_add(2).saturating_add(edits_len))
                    },
                    Err(e) => Err(e),
                }
            },
            Action::Copy { from, path } | Action::Move { from, path } => {
                let paths_len: usize = self.estimate_two_paths(from.as_slice(), path.as_slice());
                proof {
                    let elements = encoder::act_cbor(action@, self.total())->Array_0;
                    lemma_size_three(elements[0], elements[1], elements[2]);
                    assert(elements =~= seq![elements[0], elements[1], elements[2]]);
                    assert(cbor::cbor_size(elements[0]) == 1);
                }
                Ok(paths_len.saturating_add(2))
            },
        }
    }
}

/// Estimates the size of string patch edits.
fn estimate_string_edits_len(edits: &[StringPatchEdit]) -> (len: usize)
    ensures
        len == capped(
            cbor::cbor_size(
                Cbor::Array(encoder::string_edits_cbor(action::string_edit_views(edits@))),
            ) as int,
        ),
{
    let ghost views = action::string_edit_views(edits@);
    let ghost encoded = encoder::string_edits_cbor(views);
    let mut total: usize = cbor_argument_len(edits.len() as u64);
    let ghost head = total;
    let mut i: usize = 0;
    while i < edits.len()
        invariant
            i <= edits@.len(),
            views == action::string_edit_views(edits@),
            encoded == encoder::string_edits_cbor(views),
            total == capped(head + cbor::items_size(encoded, i as nat)),
        decreases edits@.len() - i,
    {
        proof {
            assert(views[i as int] == edits@[i as int]@);
            assert(encoded[i as int] == encoder::string_edit_cbor(views[i as int]));
            let edit = views[i as int];
            lemma_size_three(
                Cbor::Integer(edit.start),
                Cbor::Integer(edit.delete_count),
                Cbor::Text(edit.items),
            );
        }
        total = total.saturating_add(1).saturating_add(
            cbor_argument_len(edits[i].start as u64),
        ).saturating_add(cbor_argument_len(edits[i].delete_count as u64)).saturating_add(
            cbor_text_len(edits[i].text.as_str()),
        );
        i = i + 1;
    }
    assert(encoded.len() == edits@.len());
    total
}

/// Estimates the size of an array of values.
fn estimate_values_len(values: &[JsonValue]) -> (result: Result<usize, JsyncError>)
    ensures
        ({
            let items = json::json_views(values@);
            match result {
                Ok(len) => {
                    &&& json_cbor::first_unsafe_item(items, items.len()) is None
                    &&& len == capped(
                        cbor::cbor_size(Cbor::Array(json_cbor::cbors(items))) as int,
                    )
                },
                Err(e) => {
                    let number = json_cbor::first_unsafe_item(items, items.len());
                    &&& number is Some
                    &&& e@ == json_cbor::unsafe_number_error(number->0)
                },
            }
        }),
{
    let ghost items = json::json_views(values@);
    let ghost encoded = json_cbor::cbors(items);
    let mut total: usize = cbor_argument_len(values.len() as u64);
    let ghost head = total;
    let mut i: usize = 0;
    while i < values.len()
        invariant
            i <= values@.len(),
            items == json::json_views(values@),
            encoded == json_cbor::cbors(items),
            json_cbor::first_unsafe_item(items, i as nat) is None,
            total == capped(head + cbor::items_size(encoded, i as nat)),
        decreases values@.len() - i,
    {
        assert(items[i as int] == values@[i as int]@);
        assert(encoded[i as int] == json_cbor::to_cbor(items[i as int]));
        match estimate_json_value_len(&values[i]) {
            Ok(len) => {
                total = total.saturating_add(len);
            },
            Err(e) => {
                proof {
                    json_cbor::lemma_first_unsafe_item(items, i as nat + 1);
                }
                return Err(e);
            },
        }
        i = i + 1;
    }
    assert(encoded.len() == values@.len());
    Ok(total)
}

/// Estimates the size of array patch edits.
fn estimate_array_edits_len(edits: &[ArrayPatchEdit]) -> (result: Result<usize, JsyncError>)
    ensures
        ({
            let views = action::array_edit_views(edits@);
            match result {
                Ok(len) => {
                    &&& encoder::first_unsafe_edit(views, views.len()) is None
                    &&& len == capped(
                        cbor::cbor_size(Cbor::Array(encoder::array_edits_cbor(views))) as int,
                    )
                },
                Err(e) => {
                    let number = encoder::first_unsafe_edit(views, views.len());
                    &&& number is Some
                    &&& e@ == json_cbor::unsafe_number_error(number->0)
                },
            }
        }),
{
    let ghost views = action::array_edit_views(edits@);
    let ghost encoded = encoder::array_edits_cbor(views);
    let mut total: usize = cbor_argument_len(edits.len() as u64);
    let ghost head = total;
    let mut i: usize = 0;
    while i < edits.len()
        invariant
            i <= edits@.len(),
            views == action::array_edit_views(edits@),
            encoded == encoder::array_edits_cbor(views),
            encoder::first_unsafe_edit(views, i as nat) is None,
            total == capped(head + cbor::items_size(encoded, i as nat)),
        decreases edits@.len() - i,
    {
        proof {
            assert(views[i as int] == edits@[i as int]@);
            assert(encoded[i as int] == encoder::array_edit_cbor(views[i as int]));
            let edit = views[i as int];
            lemma_size_three(
                Cbor::Integer(edit.start),
                Cbor::Integer(edit.delete_count),
                Cbor::Array(json_cbor::cbors(edit.items)),
            );
        }
        match estimate_values_len(edits[i].values.as_slice()) {
            Ok(len) => {
                total = total.saturating_add(1).saturating_add(
                    cbor_argument_len(edits[i].start as u64),
                ).saturating_add(cbor_argument_len(edits[i].delete_count as u64)).saturating_add(
                    len,
                );
            },
            Err(e) => {
                proof {
                    encoder::lemma_first_unsafe_edit(views, i as nat + 1);
                }
                return Err(e);
            },
        }
        i = i + 1;
    }
    assert(encoded.len() == edits@.len());
    Ok(total)
}

/// Estimates the size of path segments in the metadata.
fn estimate_segments_len(segments: &[PathSegment]) -> (len: usize)
    ensures
        len == capped(
            cbor::cbor_size(encoder::segments_cbor(action::path_view(segments@))) as int,
        ),
{
    let ghost views = action::path_view(segments@);
    let ghost encoded = encoder::segments_cbor(views)->Array_0;
    let mut total: usize = cbor_argument_len(segments.len() as u64);
    let ghost head = total;
    let mut i: usize = 0;
    while i < segments.len()
        invariant
            i <= segments@.len(),
            views == action::path_view(segments@),
            encoded == encoder::segments_cbor(views)->Array_0,
            total == capped(head + cbor::items_size(encoded, i as nat)),
        decreases segments@.len() - i,
    {
        assert(views[i as int] == segments@[i as int]@);
        assert(encoded[i as int] == encoder::segment_cbor(views[i as int]));
        let len: usize = match &segments[i] {
            PathSegment::Key(key) => cbor_text_len(key.as_str()),
            PathSegment::Index(index) => cbor_argument_len(*index as u64),
        };
        assert(len == capped(cbor::cbor_size(encoded[i as int]) as int));
        total = total.saturating_add(len);
        i = i + 1;
    }
    assert(encoded.len() == segments@.len());
    total
}

/// Estimates the cost of a plan.
pub fn estimate_plan_cost(
    actions: &[Action],
    path_segment_pool: &ProducerPathSegmentPool,
) -> (result: Result<usize, JsyncError>)
    ensures
        ({
            let acts = action::action_views(actions@);
            match result {
                Ok(cost) => {
                    &&& encoder::encoding_error(acts) is None
                    &&& cost == plan_cost(acts, path_segment_pool@)
                },
                Err(e) => encoder::encoding_error(acts) == Some(e@),
            }
        }),
{
    let ghost acts = action::action_views(actions@);
    let ghost start = path_segment_pool@;
    assert(acts.len() == actions@.len());
    if actions.len() == 0 {
        return Ok(0);
    }
    let mut estimator = CostEstimator::new(path_segment_pool);
    let mut actions_cost: usize = cbor_argument_len(actions.len() as u64);
    let ghost head = actions_cost;
    let mut i: usize = 0;
    while i < actions.len()
        invariant
            i <= actions@.len(),
            acts == action::action_views(actions@),
            start.no_duplicates(),
            start == path_segment_pool@,
            estimator.well_formed(),
            estimator.path_segment_pool@ == start,
            estimator.total() == encoder::absorb_acts(start, acts, i as nat),
            encoder::first_unsafe_act(acts, i as nat) is None,
            actions_cost == capped(head + acts_size(acts, estimator.total(), i as nat)),
        decreases actions@.len() - i,
    {
        let ghost before = estimator.total();
        assert(acts[i as int] == actions@[i as int]@);
        match estimator.estimate_action(&actions[i]) {
            Ok(cost) => {
                proof {
                    encoder::lemma_absorb_acts(start, acts, i as nat);
                    pool::lemma_absorb_path(before, encoder::segments_of(acts[i as int]));
                    lemma_acts_size_stable(acts, estimator.total(), before, i as nat);
                }
                actions_cost = actions_cost.saturating_add(cost);
            },
            Err(e) => {
                proof {
                    encoder::lemma_first_unsafe_act(acts, i as nat + 1);
                }
                return Err(e);
            },
        }
        i = i + 1;
    }
    let metadata_cost: usize = estimate_segments_len(estimator.appended.segments());
    proof {
        let full = encoder::absorb_acts(start, acts, acts.len());
        assert(full.skip(start.len() as int) =~= estimator.appended@);
        let added = encoder::segments_cbor(estimator.appended@);
        let metadata = Cbor::Array(seq![added]);
        let body = encoder::acts_cbor(acts, full);
        lemma_size_one(added);
        lemma_size_two(metadata, body);
        lemma_acts_size(acts, full, acts.len());
    }
    // The payload is [[added segments], actions]: three bytes of header, and one head each for
    // the payload and the metadata.
    Ok(metadata_cost.saturating_add(actions_cost).saturating_add(5))
}

/// Actions that lead from one value to another, and what it costs to send them.
#[derive(Debug)]
pub struct DiffPlan {
    /// The actions.
    pub actions: Vec<Action>,
    /// The cost of a message with these actions.
    pub cost: usize,
}

impl DiffPlan {
    /// The actions.
    pub open spec fn acts(self) -> Seq<Act> {
        action::action_views(self.actions@)
    }

    /// Whether the actions can be encoded, and the cost is theirs.
    pub open spec fn well_formed(self, pool: Seq<Segment>) -> bool {
        self.cost == plan_cost(self.acts(), pool) && encoder::all_safe(self.acts())
    }
}

/// Makes a plan of actions.
///
/// Cost is used only to choose between equivalent plans. Estimating it avoids serializing every
/// candidate message during recursive diffing.
pub fn plan(actions: Vec<Action>, path_segment_pool: &ProducerPathSegmentPool) -> (result: Result<
    DiffPlan,
    JsyncError,
>)
    ensures
        ({
            let acts = action::action_views(actions@);
            match result {
                Ok(plan) => {
                    &&& encoder::encoding_error(acts) is None
                    &&& plan.actions == actions
                    &&& plan.well_formed(path_segment_pool@)
                },
                Err(e) => encoder::encoding_error(acts) == Some(e@),
            }
        }),
{
    match estimate_plan_cost(actions.as_slice(), path_segment_pool) {
        Ok(cost) => {
            proof {
                let acts = action::action_views(actions@);
                assert forall|i: int| 0 <= i < acts.len() implies encoder::first_unsafe_number(
                    #[trigger] acts[i],
                ) is None by {
                    encoder::lemma_safe_act(acts, acts.len(), i);
                }
            }
            Ok(DiffPlan { actions, cost })
        },
        Err(e) => Err(e),
    }
}

/// Makes a plan of actions that can be encoded.
pub(crate) fn safe_plan(actions: Vec<Action>, path_segment_pool: &ProducerPathSegmentPool) -> (result:
    Result<DiffPlan, JsyncError>)
    requires
        encoder::all_safe(action::action_views(actions@)),
    ensures
        result matches Ok(plan) && plan.actions == actions && plan.well_formed(path_segment_pool@),
{
    proof {
        let acts = action::action_views(actions@);
        encoder::lemma_all_safe(acts, acts.len());
    }
    plan(actions, path_segment_pool)
}

/// Makes a plan of one action that can be encoded.
pub(crate) fn single_plan(action: Action, path_segment_pool: &ProducerPathSegmentPool) -> (result:
    Result<DiffPlan, JsyncError>)
    requires
        encoder::first_unsafe_number(action@) is None,
    ensures
        result matches Ok(plan) && plan.acts() == seq![action@] && plan.well_formed(
            path_segment_pool@,
        ),
{
    let mut actions: Vec<Action> = Vec::new();
    actions.push(action);
    assert(action::action_views(actions@) =~= seq![action@]);
    safe_plan(actions, path_segment_pool)
}

/// The cheaper one of two plans; the first where both cost the same.
pub open spec fn cheaper(best: Seq<Act>, candidate: Seq<Act>, pool: Seq<Segment>) -> Seq<Act> {
    if plan_cost(candidate, pool) < plan_cost(best, pool) {
        candidate
    } else {
        best
    }
}

/// A plan, or another one if there is another one and it is cheaper.
pub open spec fn consider(
    best: Seq<Act>,
    candidate: Option<Seq<Act>>,
    pool: Seq<Segment>,
) -> Seq<Act> {
    match candidate {
        Some(acts) => cheaper(best, acts, pool),
        None => best,
    }
}

/// Chooses the cheaper one of two plans, the first where both cost the same.
pub(crate) fn choose_cheaper(
    best: DiffPlan,
    candidate: DiffPlan,
    Ghost(pool): Ghost<Seq<Segment>>,
) -> (plan: DiffPlan)
    requires
        best.well_formed(pool),
        candidate.well_formed(pool),
    ensures
        plan.well_formed(pool),
        plan.acts() == cheaper(best.acts(), candidate.acts(), pool),
{
    if candidate.cost < best.cost {
        candidate
    } else {
        best
    }
}

/// Whether a plan was found where there is one, and it is that one.
pub open spec fn planned(
    found: Option<DiffPlan>,
    expected: Option<Seq<Act>>,
    pool: Seq<Segment>,
) -> bool {
    match found {
        Some(plan) => expected == Some(plan.acts()) && plan.well_formed(pool),
        None => expected is None,
    }
}

/// Chooses another plan, if there is one and it is cheaper.
pub(crate) fn choose_considered(
    best: DiffPlan,
    candidate: Option<DiffPlan>,
    Ghost(expected): Ghost<Option<Seq<Act>>>,
    Ghost(pool): Ghost<Seq<Segment>>,
) -> (plan: DiffPlan)
    requires
        best.well_formed(pool),
        planned(candidate, expected, pool),
    ensures
        plan.well_formed(pool),
        plan.acts() == consider(best.acts(), expected, pool),
{
    match candidate {
        Some(candidate) => choose_cheaper(best, candidate, Ghost(pool)),
        None => best,
    }
}

/// Measures the length of the message of a plan by encoding it. Choosing between plans does not
/// need it: it shows how far the estimate is from the truth.
pub fn encoded_plan_cost_for_debug(
    actions: Vec<Action>,
    path_segment_pool: &ProducerPathSegmentPool,
) -> (result: Result<usize, JsyncError>)
    ensures
        ({
            let acts = action::action_views(actions@);
            let payload = encoder::paired_payload(acts, path_segment_pool@, path_segment_pool@);
            match result {
                Ok(cost) => {
                    &&& encoder::encoding_error(acts) is None
                    &&& acts.len() == 0 ==> cost == 0
                    &&& acts.len() > 0 ==> cost == 3 + cbor::cbor_bytes(payload).len()
                    &&& cost <= plan_cost(acts, path_segment_pool@)
                    &&& cbor::float_free(payload) ==> cost == plan_cost(acts, path_segment_pool@)
                },
                Err(e) => encoder::encoding_error(acts) == Some(e@),
            }
        }),
{
    let ghost acts = action::action_views(actions@);
    assert(acts.len() == actions@.len());
    if actions.len() == 0 {
        return Ok(0);
    }
    let mut path_segment_pool = path_segment_pool.clone();
    let mut txn = path_segment_pool.transaction();
    assert(txn.total() =~= txn.pool@);
    match Message::new(actions).to_bytes_with_pool_txn(&mut txn) {
        Ok(bytes) => Ok(bytes.len()),
        Err(e) => Err(e),
    }
}

} // verus!
