//! Patches that turn one array into another.

use vstd::prelude::*;

use crate::error::JsyncError;
use crate::json;
use crate::json::{Json, JsonValue};
use crate::message::action;
use crate::message::action::{Act, Action, ArrayPatchEdit, Edit, PathSegment, Segment};
use crate::message::encoder;
use crate::message::json_cbor;
use crate::message::pool::ProducerPathSegmentPool;
use crate::producer::cost;
use crate::producer::cost::DiffPlan;
use crate::producer::digest;
use crate::producer::digest::ValueDigest;
use crate::producer::hunks;
use crate::producer::hunks::Hunk;
use crate::producer::myers;
use crate::producer::myers::{EditOp, Problem, Token};
use crate::producer::sequences;

verus! {

/// Which items of two arrays are the same.
pub open spec fn value_problem(old: Seq<Json>, new: Seq<Json>) -> Problem {
    Problem {
        n: old.len() as int,
        m: new.len() as int,
        alike: |i: int, j: int|
            0 <= i < old.len() && 0 <= j < new.len() && json::same(old[i], new[j]),
    }
}

/// The plan that replaces what lies between the common prefix and suffix.
pub open spec fn single_patch_acts(
    old: Seq<Json>,
    new: Seq<Json>,
    path: Seq<Segment>,
) -> Option<Seq<Act>> {
    let p = value_problem(old, new);
    let edit = Edit {
        start: sequences::prefix_len(p),
        delete_count: sequences::middle(old, p).len() as int,
        items: sequences::middle(new, p),
    };
    if edit.delete_count == 0 && edit.items.len() == 0 {
        None
    } else {
        Some(seq![Act::ArrayPatch { path, edits: seq![edit] }])
    }
}

/// The edits of a shortest script between the common prefix and suffix.
pub open spec fn script_patch_edits(old: Seq<Json>, new: Seq<Json>) -> Seq<Edit<Json>> {
    let p = value_problem(old, new);
    let script = value_problem(sequences::middle(old, p), sequences::middle(new, p)).script();
    hunks::script_edits(script, sequences::middle(new, p), sequences::prefix_len(p))
}

/// The plan that follows a shortest script, if looking for one is affordable.
pub open spec fn script_patch_acts(
    old: Seq<Json>,
    new: Seq<Json>,
    path: Seq<Segment>,
) -> Option<Seq<Act>> {
    let p = value_problem(old, new);
    let edits = script_patch_edits(old, new);
    if sequences::worth_a_script(
        sequences::middle(old, p).len() as int,
        sequences::middle(new, p).len() as int,
    ) && edits.len() > 0 {
        Some(seq![Act::ArrayPatch { path, edits }])
    } else {
        None
    }
}

impl Token for JsonValue {
    open spec fn alike(&self, other: &Self) -> bool {
        json::same(self@, other@)
    }

    fn is_alike(&self, other: &Self) -> (alike: bool) {
        json::same_value(self, other)
    }
}

/// A value with its digest, by which most values that differ are told apart at once.
struct DigestedValue<'a> {
    digest: ValueDigest,
    value: &'a JsonValue,
}

impl<'a> Token for DigestedValue<'a> {
    closed spec fn alike(&self, other: &Self) -> bool {
        self.digest@ == other.digest@ && json::same(self.value@, other.value@)
    }

    fn is_alike(&self, other: &Self) -> (alike: bool) {
        digest::same_digest(&self.digest, &other.digest) && json::same_value(
            self.value,
            other.value,
        )
    }
}

/// What tells which values are alike does so for their models.
proof fn lemma_value_problem(old: Seq<JsonValue>, new: Seq<JsonValue>)
    ensures
        myers::problem_of(old, new) == value_problem(json::json_views(old), json::json_views(new)),
{
    assert(myers::problem_of(old, new) =~= value_problem(
        json::json_views(old),
        json::json_views(new),
    ));
}

/// Whether digested values are those of some models.
spec fn digested(values: Seq<DigestedValue>, models: Seq<Json>) -> bool {
    &&& values.len() == models.len()
    &&& forall|i: int|
        0 <= i < values.len() ==> (#[trigger] values[i]).value@ == models[i]
            && values[i].digest@ == digest::digest(models[i])
}

/// Which digested values are alike is told by their models.
proof fn lemma_digested_problem(
    old: Seq<DigestedValue>,
    new: Seq<DigestedValue>,
    from: Seq<Json>,
    to: Seq<Json>,
)
    requires
        digested(old, from),
        digested(new, to),
    ensures
        myers::problem_of(old, new) == value_problem(from, to),
{
    let p = myers::problem_of(old, new);
    let q = value_problem(from, to);
    assert forall|i: int, j: int| #[trigger] (p.alike)(i, j) == (q.alike)(i, j) by {
        if 0 <= i < old.len() && 0 <= j < new.len() {
            assert(old[i].value@ == from[i]);
            assert(new[j].value@ == to[j]);
            if json::same(from[i], to[j]) {
                digest::law_equal_values_have_equal_digests(from[i], to[j]);
            }
        }
    }
    assert(p.alike =~= q.alike);
}

/// Copies a part of an array.
fn values_between(values: &[JsonValue], from: usize, upto: usize) -> (part: Vec<JsonValue>)
    requires
        from <= upto <= values@.len(),
    ensures
        json::json_views(part@) == json::json_views(values@).subrange(from as int, upto as int),
{
    let mut part: Vec<JsonValue> = Vec::new();
    let mut i: usize = from;
    while i < upto
        invariant
            from <= i <= upto <= values@.len(),
            part@.len() == i - from,
            forall|j: int| 0 <= j < i - from ==> (#[trigger] part@[j])@ == values@[from + j]@,
        decreases upto - i,
    {
        part.push(json::copy_value(&values[i]));
        i = i + 1;
    }
    assert(json::json_views(part@) =~= json::json_views(values@).subrange(
        from as int,
        upto as int,
    ));
    part
}

/// Digests the items of an array.
fn digest_values(values: &[JsonValue]) -> (result: Result<Vec<DigestedValue<'_>>, JsyncError>)
    requires
        all_safe(json::json_views(values@)),
    ensures
        result matches Ok(found) && digested(found@, json::json_views(values@)),
{
    let ghost models = json::json_views(values@);
    let mut found: Vec<DigestedValue> = Vec::new();
    let mut i: usize = 0;
    while i < values.len()
        invariant
            i <= values@.len(),
            models == json::json_views(values@),
            all_safe(models),
            digested(found@, models.take(i as int)),
        decreases values@.len() - i,
    {
        let value: &JsonValue = &values[i];
        assert(models[i as int] == value@);
        let digest = match digest::digest_value(value) {
            Ok(digest) => digest,
            Err(e) => return Err(e),
        };
        let ghost before = found@;
        found.push(DigestedValue { digest, value });
        i = i + 1;
        proof {
            assert forall|j: int| 0 <= j < found@.len() implies (#[trigger] found@[j]).value@
                == models.take(i as int)[j] && found@[j].digest@ == digest::digest(
                models.take(i as int)[j],
            ) by {
                if j < before.len() {
                    assert(before[j].value@ == models.take(i - 1)[j]);
                }
            }
        }
    }
    assert(models.take(i as int) =~= models);
    Ok(found)
}

/// Whether no value holds a number that may not stand in a message.
pub open spec fn all_safe(values: Seq<Json>) -> bool {
    forall|i: int| 0 <= i < values.len() ==> json_cbor::first_unsafe(#[trigger] values[i]) is None
}

/// Edits that insert safe values can be encoded.
proof fn lemma_edits_safe(edits: Seq<Edit<Json>>, count: nat)
    requires
        count <= edits.len(),
        forall|i: int| 0 <= i < edits.len() ==> all_safe((#[trigger] edits[i]).items),
    ensures
        encoder::first_unsafe_edit(edits, count) is None,
    decreases count,
{
    if count > 0 {
        lemma_edits_safe(edits, (count - 1) as nat);
        let items = edits[count - 1].items;
        assert(all_safe(items));
        json_cbor::lemma_all_items_safe(items, items.len());
    }
}

/// Plans to patch an array by some edits.
fn patch_plan(
    edits: Vec<ArrayPatchEdit>,
    path: &[PathSegment],
    path_segment_pool: &ProducerPathSegmentPool,
) -> (result: Result<Option<DiffPlan>, JsyncError>)
    requires
        forall|i: int|
            0 <= i < edits@.len() ==> all_safe(
                (#[trigger] action::array_edit_views(edits@)[i]).items,
            ),
    ensures
        result matches Ok(found) && cost::planned(
            found,
            Some(
                seq![
                    Act::ArrayPatch {
                        path: action::path_view(path@),
                        edits: action::array_edit_views(edits@),
                    },
                ],
            ),
            path_segment_pool@,
        ),
{
    proof {
        let models = action::array_edit_views(edits@);
        lemma_edits_safe(models, models.len());
    }
    let patch = cost::single_plan(
        Action::ArrayPatch { path: action::copy_path(path), edits },
        path_segment_pool,
    );
    match patch {
        Ok(plan) => Ok(Some(plan)),
        Err(e) => Err(e),
    }
}

/// Plans to replace what lies between the common prefix and suffix.
pub(crate) fn single_array_patch_plan(
    old: &[JsonValue],
    new: &[JsonValue],
    path: &[PathSegment],
    path_segment_pool: &ProducerPathSegmentPool,
) -> (result: Result<Option<DiffPlan>, JsyncError>)
    requires
        all_safe(json::json_views(new@)),
    ensures
        result matches Ok(found) && cost::planned(
            found,
            single_patch_acts(
                json::json_views(old@),
                json::json_views(new@),
                action::path_view(path@),
            ),
            path_segment_pool@,
        ),
{
    let ghost from = json::json_views(old@);
    let ghost to = json::json_views(new@);
    proof {
        lemma_value_problem(old@, new@);
        assert(from.len() == old@.len() && to.len() == new@.len());
    }
    let prefix_len: usize = sequences::common_prefix_len(old, new);
    let suffix_len: usize = sequences::common_suffix_len(old, new, prefix_len);
    let old_mid_end: usize = old.len() - suffix_len;
    let new_mid_end: usize = new.len() - suffix_len;
    if old_mid_end == prefix_len && new_mid_end == prefix_len {
        return Ok(None);
    }
    let edit = ArrayPatchEdit {
        start: prefix_len,
        delete_count: old_mid_end - prefix_len,
        values: values_between(new, prefix_len, new_mid_end),
    };
    let mut edits: Vec<ArrayPatchEdit> = Vec::new();
    edits.push(edit);
    assert(action::array_edit_views(edits@) =~= seq![edit@]);
    patch_plan(edits, path, path_segment_pool)
}

/// Turns the steps of a script into patch edits, the last one first.
fn array_edit_ops_to_patch_edits(
    operations: &[EditOp],
    new_values: &[JsonValue],
    prefix_offset: usize,
) -> (edits: Vec<ArrayPatchEdit>)
    requires
        hunks::in_reach(myers::op_views(operations@), new_values@.len() as int),
        prefix_offset + myers::end_of(myers::op_views(operations@)).0 <= usize::MAX,
    ensures
        action::array_edit_views(edits@) == hunks::script_edits(
            myers::op_views(operations@),
            json::json_views(new_values@),
            prefix_offset as int,
        ),
{
    let ghost ops = myers::op_views(operations@);
    let ghost to = json::json_views(new_values@);
    let ghost all = hunks::script_edits(ops, to, prefix_offset as int);
    let runs: Vec<Hunk> = hunks::collect_hunks(operations);
    let ghost models = hunks::hunk_views(runs@);
    let mut edits: Vec<ArrayPatchEdit> = Vec::new();
    let mut i: usize = runs.len();
    assert(action::array_edit_views(edits@) =~= all.take(0));
    while i > 0
        invariant
            i <= runs@.len(),
            models == hunks::hunk_views(runs@),
            models == hunks::hunks(ops),
            to == json::json_views(new_values@),
            hunks::in_reach(ops, new_values@.len() as int),
            prefix_offset + myers::end_of(ops).0 <= usize::MAX,
            all == hunks::script_edits(ops, to, prefix_offset as int),
            action::array_edit_views(edits@) == all.take(runs@.len() - i),
        decreases i,
    {
        i = i - 1;
        let run: &Hunk = &runs[i];
        let ghost before = action::array_edit_views(edits@);
        proof {
            hunks::lemma_hunk_bounds(ops, new_values@.len() as int, i as int);
            assert(models[i as int] == run@);
            assert forall|k: int| 0 <= k < run.inserted@.len() implies 0
                <= #[trigger] hunks::index_views(run.inserted@)[k] < new_values@.len() by {
                assert(run@.inserted[k] == hunks::index_views(run.inserted@)[k]);
            }
        }
        let mut values: Vec<JsonValue> = Vec::new();
        let mut j: usize = 0;
        while j < run.inserted.len()
            invariant
                j <= run.inserted@.len(),
                to == json::json_views(new_values@),
                forall|k: int|
                    0 <= k < run.inserted@.len() ==> 0 <= #[trigger] hunks::index_views(
                        run.inserted@,
                    )[k] < new_values@.len(),
                values@.len() == j,
                forall|k: int|
                    0 <= k < j ==> (#[trigger] values@[k])@ == to[run.inserted@[k] as int],
            decreases run.inserted@.len() - j,
        {
            assert(hunks::index_views(run.inserted@)[j as int] == run.inserted@[j as int]);
            values.push(json::copy_value(&new_values[run.inserted[j]]));
            j = j + 1;
        }
        assert(json::json_views(values@) =~= hunks::picked(
            hunks::index_views(run.inserted@),
            to,
        ));
        let edit = ArrayPatchEdit {
            start: prefix_offset + run.start,
            delete_count: run.delete_count,
            values,
        };
        assert(edit@ == all[runs@.len() - 1 - i]);
        edits.push(edit);
        assert(action::array_edit_views(edits@) =~= before.push(edit@));
        assert(action::array_edit_views(edits@) =~= all.take(runs@.len() - i));
    }
    assert(all.take(runs@.len() as int) =~= all);
    edits
}

/// Plans to follow a shortest script between the common prefix and suffix.
pub(crate) fn myers_array_patch_plan(
    old: &[JsonValue],
    new: &[JsonValue],
    path: &[PathSegment],
    path_segment_pool: &ProducerPathSegmentPool,
) -> (result: Result<Option<DiffPlan>, JsyncError>)
    requires
        all_safe(json::json_views(old@)),
        all_safe(json::json_views(new@)),
    ensures
        result matches Ok(found) && cost::planned(
            found,
            script_patch_acts(
                json::json_views(old@),
                json::json_views(new@),
                action::path_view(path@),
            ),
            path_segment_pool@,
        ),
{
    let ghost from = json::json_views(old@);
    let ghost to = json::json_views(new@);
    let ghost p = value_problem(from, to);
    proof {
        lemma_value_problem(old@, new@);
        assert(from.len() == old@.len() && to.len() == new@.len());
    }
    let prefix_len: usize = sequences::common_prefix_len(old, new);
    let suffix_len: usize = sequences::common_suffix_len(old, new, prefix_len);
    let old_mid_end: usize = old.len() - suffix_len;
    let new_mid_end: usize = new.len() - suffix_len;
    if !sequences::should_run_myers(old_mid_end - prefix_len, new_mid_end - prefix_len) {
        return Ok(None);
    }
    let old_middle: &[JsonValue] = vstd::slice::slice_subrange(old, prefix_len, old_mid_end);
    let new_middle: &[JsonValue] = vstd::slice::slice_subrange(new, prefix_len, new_mid_end);
    proof {
        assert(json::json_views(old_middle@) =~= sequences::middle(from, p));
        assert(json::json_views(new_middle@) =~= sequences::middle(to, p));
    }
    let old_digests: Vec<DigestedValue> = match digest_values(old_middle) {
        Ok(found) => found,
        Err(e) => return Err(e),
    };
    let new_digests: Vec<DigestedValue> = match digest_values(new_middle) {
        Ok(found) => found,
        Err(e) => return Err(e),
    };
    let operations: Vec<EditOp> = myers::myers_diff(old_digests.as_slice(), new_digests.as_slice());
    proof {
        let q = myers::problem_of(old_digests@, new_digests@);
        lemma_digested_problem(
            old_digests@,
            new_digests@,
            sequences::middle(from, p),
            sequences::middle(to, p),
        );
        myers::law_script_leads_to_the_end(q);
        hunks::lemma_fits_in_reach(q.script(), q.alike);
    }
    let edits = array_edit_ops_to_patch_edits(operations.as_slice(), new_middle, prefix_len);
    let ghost models = action::array_edit_views(edits@);
    assert(models.len() == edits@.len());
    if edits.len() == 0 {
        return Ok(None);
    }
    proof {
        let ops = myers::op_views(operations@);
        let middle = sequences::middle(to, p);
        let runs = hunks::hunks(ops);
        assert forall|i: int| 0 <= i < edits@.len() implies all_safe(
            (#[trigger] models[i]).items,
        ) by {
            let at = runs.len() - 1 - i;
            hunks::lemma_hunk_bounds(ops, middle.len() as int, at);
            let run = runs[at];
            assert(models[i].items == hunks::picked(run.inserted, middle));
            assert forall|k: int| 0 <= k < models[i].items.len() implies json_cbor::first_unsafe(
                #[trigger] models[i].items[k],
            ) is None by {
                let index = run.inserted[k];
                assert(models[i].items[k] == to[prefix_len + index]);
            }
        }
    }
    patch_plan(edits, path, path_segment_pool)
}

} // verus!
