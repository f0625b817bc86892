//! Plans that turn one string into another.

use vstd::prelude::*;

use crate::error::JsyncError;
use crate::json::Json;
use crate::message::action;
use crate::message::action::{Act, Action, Edit, PathSegment, Segment, StringPatchEdit};
use crate::message::pool::ProducerPathSegmentPool;
use crate::producer::cost;
use crate::producer::cost::DiffPlan;
use crate::producer::hunks;
use crate::producer::hunks::Hunk;
use crate::producer::myers;
use crate::producer::myers::EditOp;
use crate::producer::sequences;
use crate::text;

verus! {

/// Whether a text occurs in another one at a position.
pub open spec fn occurs_at(whole: Seq<char>, part: Seq<char>, at: int) -> bool {
    &&& 0 <= at
    &&& at + part.len() <= whole.len()
    &&& whole.subrange(at, at + part.len()) == part
}

/// The first position, not below `from`, at which a text occurs in another one.
pub open spec fn first_occurrence(whole: Seq<char>, part: Seq<char>, from: int) -> Option<int>
    decreases whole.len() + 1 - from,
{
    if from + part.len() > whole.len() {
        None
    } else if occurs_at(whole, part, from) {
        Some(from)
    } else {
        first_occurrence(whole, part, from + 1)
    }
}

/// The plan that appends what the new string has behind the old one.
pub open spec fn append_acts(
    old: Seq<char>,
    new: Seq<char>,
    path: Seq<Segment>,
) -> Option<Seq<Act>> {
    if old.len() < new.len() && occurs_at(new, old, 0) {
        Some(seq![Act::StringAppend { path, text: new.skip(old.len() as int) }])
    } else {
        None
    }
}

/// The plan that prepends what the new string has in front of the old one.
pub open spec fn prepend_acts(
    old: Seq<char>,
    new: Seq<char>,
    path: Seq<Segment>,
) -> Option<Seq<Act>> {
    if old.len() < new.len() && occurs_at(new, old, new.len() - old.len()) {
        Some(seq![Act::StringPrepend { path, text: new.take(new.len() - old.len()) }])
    } else {
        None
    }
}

/// The plan that puts text on both sides of the old string where it first occurs in the new one.
pub open spec fn surround_acts(
    old: Seq<char>,
    new: Seq<char>,
    path: Seq<Segment>,
) -> Option<Seq<Act>> {
    match first_occurrence(new, old, 0) {
        Some(at) => if old.len() > 0 && 0 < at && at + old.len() < new.len() {
            Some(
                seq![
                    Act::StringPrepend { path, text: new.take(at) },
                    Act::StringAppend { path, text: new.skip(at + old.len()) },
                ],
            )
        } else {
            None
        },
        None => None,
    }
}

/// The plan that replaces what lies between the common prefix and suffix.
pub open spec fn single_patch_acts(
    old: Seq<char>,
    new: Seq<char>,
    path: Seq<Segment>,
) -> Option<Seq<Act>> {
    let p = myers::problem_of(old, new);
    let edit = Edit {
        start: sequences::prefix_len(p),
        delete_count: sequences::middle(old, p).len() as int,
        items: sequences::middle(new, p),
    };
    if edit.delete_count == 0 && edit.items.len() == 0 {
        None
    } else {
        Some(seq![Act::StringPatch { path, edits: seq![edit] }])
    }
}

/// The edits of a shortest script between the common prefix and suffix.
pub open spec fn script_patch_edits(old: Seq<char>, new: Seq<char>) -> Seq<Edit<char>> {
    let p = myers::problem_of(old, new);
    let script = myers::problem_of(
        sequences::middle(old, p),
        sequences::middle(new, p),
    ).script();
    hunks::script_edits(script, sequences::middle(new, p), sequences::prefix_len(p))
}

/// The plan that follows a shortest script, if looking for one is affordable.
pub open spec fn script_patch_acts(
    old: Seq<char>,
    new: Seq<char>,
    path: Seq<Segment>,
) -> Option<Seq<Act>> {
    let p = myers::problem_of(old, new);
    let edits = script_patch_edits(old, new);
    if sequences::worth_a_script(
        sequences::middle(old, p).len() as int,
        sequences::middle(new, p).len() as int,
    ) && edits.len() > 0 {
        Some(seq![Act::StringPatch { path, edits }])
    } else {
        None
    }
}

/// The plan that turns a string into another one: the cheapest of replacing it, appending to it,
/// prepending to it, doing both, replacing what differs, and following a shortest script. Of plans
/// that cost the same, the one that is named first.
pub open spec fn string_acts(
    old: Seq<char>,
    new: Seq<char>,
    path: Seq<Segment>,
    pool: Seq<Segment>,
) -> Seq<Act> {
    let replace = seq![Act::Replace { path, value: Json::String(new) }];
    let best = cost::consider(replace, append_acts(old, new, path), pool);
    let best = cost::consider(best, prepend_acts(old, new, path), pool);
    let best = cost::consider(best, surround_acts(old, new, path), pool);
    let best = cost::consider(best, single_patch_acts(old, new, path), pool);
    cost::consider(best, script_patch_acts(old, new, path), pool)
}

/// Tells whether a text occurs in another one at a position.
fn is_at(whole: &[char], part: &[char], at: usize) -> (found: bool)
    requires
        at + part@.len() <= whole@.len(),
    ensures
        found == occurs_at(whole@, part@, at as int),
{
    let length: usize = whole.len();
    let mut i: usize = 0;
    while i < part.len()
        invariant
            i <= part@.len(),
            length == whole@.len(),
            at + part@.len() <= whole@.len(),
            forall|j: int| 0 <= j < i ==> whole@[at + j] == #[trigger] part@[j],
        decreases part@.len() - i,
    {
        if whole[at + i] != part[i] {
            proof {
                let window = whole@.subrange(at as int, at + part@.len());
                assert(window[i as int] != part@[i as int]);
            }
            return false;
        }
        i = i + 1;
    }
    assert(whole@.subrange(at as int, at + part@.len()) =~= part@);
    true
}

/// Finds the first position at which a text occurs in another one.
fn find(whole: &[char], part: &[char]) -> (found: Option<usize>)
    ensures
        match found {
            Some(at) => first_occurrence(whole@, part@, 0) == Some(at as int) && at + part@.len()
                <= whole@.len(),
            None => first_occurrence(whole@, part@, 0) is None,
        },
{
    if part.len() > whole.len() {
        return None;
    }
    let last: usize = whole.len() - part.len();
    let mut at: usize = 0;
    while at < last
        invariant
            at <= last,
            last + part@.len() == whole@.len(),
            first_occurrence(whole@, part@, at as int) == first_occurrence(whole@, part@, 0),
        decreases last - at,
    {
        if is_at(whole, part, at) {
            return Some(at);
        }
        at = at + 1;
    }
    if is_at(whole, part, last) {
        Some(last)
    } else {
        assert(first_occurrence(whole@, part@, last + 1) is None);
        None
    }
}

/// Copies a part of a text.
fn text_between(tokens: &[char], from: usize, upto: usize) -> (part: String)
    requires
        from <= upto <= tokens@.len(),
    ensures
        part@ == tokens@.subrange(from as int, upto as int),
{
    text::tokens_to_string(vstd::slice::slice_subrange(tokens, from, upto))
}

/// Plans to append what the new string has behind the old one.
fn append_plan(
    old: &[char],
    new: &[char],
    path: &[PathSegment],
    path_segment_pool: &ProducerPathSegmentPool,
) -> (result: Result<Option<DiffPlan>, JsyncError>)
    ensures
        result matches Ok(found) && cost::planned(
            found,
            append_acts(old@, new@, action::path_view(path@)),
            path_segment_pool@,
        ),
{
    if old.len() >= new.len() || !is_at(new, old, 0) {
        return Ok(None);
    }
    let text = text_between(new, old.len(), new.len());
    assert(text@ =~= new@.skip(old@.len() as int));
    let append = cost::single_plan(
        Action::StringAppend { path: action::copy_path(path), text },
        path_segment_pool,
    );
    match append {
        Ok(plan) => Ok(Some(plan)),
        Err(e) => Err(e),
    }
}

/// Plans to prepend what the new string has in front of the old one.
fn prepend_plan(
    old: &[char],
    new: &[char],
    path: &[PathSegment],
    path_segment_pool: &ProducerPathSegmentPool,
) -> (result: Result<Option<DiffPlan>, JsyncError>)
    ensures
        result matches Ok(found) && cost::planned(
            found,
            prepend_acts(old@, new@, action::path_view(path@)),
            path_segment_pool@,
        ),
{
    if old.len() >= new.len() || !is_at(new, old, new.len() - old.len()) {
        return Ok(None);
    }
    let text = text_between(new, 0, new.len() - old.len());
    assert(text@ =~= new@.take(new@.len() - old@.len()));
    let prepend = cost::single_plan(
        Action::StringPrepend { path: action::copy_path(path), text },
        path_segment_pool,
    );
    match prepend {
        Ok(plan) => Ok(Some(plan)),
        Err(e) => Err(e),
    }
}

/// Plans to put text on both sides of the old string.
fn surround_plan(
    old: &[char],
    new: &[char],
    path: &[PathSegment],
    path_segment_pool: &ProducerPathSegmentPool,
) -> (result: Result<Option<DiffPlan>, JsyncError>)
    ensures
        result matches Ok(found) && cost::planned(
            found,
            surround_acts(old@, new@, action::path_view(path@)),
            path_segment_pool@,
        ),
{
    let length: usize = new.len();
    if old.len() == 0 {
        return Ok(None);
    }
    match find(new, old) {
        Some(at) => {
            let end: usize = at + old.len();
            if at == 0 || end >= length {
                return Ok(None);
            }
            let prefix = text_between(new, 0, at);
            let suffix = text_between(new, end, length);
            assert(prefix@ =~= new@.take(at as int));
            assert(suffix@ =~= new@.skip(end as int));
            let mut actions: Vec<Action> = Vec::new();
            actions.push(Action::StringPrepend { path: action::copy_path(path), text: prefix });
            actions.push(Action::StringAppend { path: action::copy_path(path), text: suffix });
            let ghost view = action::path_view(path@);
            assert(action::action_views(actions@) =~= seq![
                Act::StringPrepend { path: view, text: prefix@ },
                Act::StringAppend { path: view, text: suffix@ },
            ]);
            match cost::safe_plan(actions, path_segment_pool) {
                Ok(plan) => Ok(Some(plan)),
                Err(e) => Err(e),
            }
        },
        None => Ok(None),
    }
}

/// Plans to patch a string by some edits.
fn patch_plan(
    edits: Vec<StringPatchEdit>,
    path: &[PathSegment],
    path_segment_pool: &ProducerPathSegmentPool,
) -> (result: Result<Option<DiffPlan>, JsyncError>)
    ensures
        result matches Ok(found) && cost::planned(
            found,
            Some(
                seq![
                    Act::StringPatch {
                        path: action::path_view(path@),
                        edits: action::string_edit_views(edits@),
                    },
                ],
            ),
            path_segment_pool@,
        ),
{
    let patch = cost::single_plan(
        Action::StringPatch { path: action::copy_path(path), edits },
        path_segment_pool,
    );
    match patch {
        Ok(plan) => Ok(Some(plan)),
        Err(e) => Err(e),
    }
}

/// Plans to replace what lies between the common prefix and suffix.
fn single_string_patch_plan(
    old_tokens: &[char],
    new_tokens: &[char],
    path: &[PathSegment],
    path_segment_pool: &ProducerPathSegmentPool,
) -> (result: Result<Option<DiffPlan>, JsyncError>)
    ensures
        result matches Ok(found) && cost::planned(
            found,
            single_patch_acts(old_tokens@, new_tokens@, action::path_view(path@)),
            path_segment_pool@,
        ),
{
    let ghost p = myers::problem_of(old_tokens@, new_tokens@);
    let prefix_len: usize = sequences::common_prefix_len(old_tokens, new_tokens);
    let suffix_len: usize = sequences::common_suffix_len(old_tokens, new_tokens, prefix_len);
    let old_mid_end: usize = old_tokens.len() - suffix_len;
    let new_mid_end: usize = new_tokens.len() - suffix_len;
    if old_mid_end == prefix_len && new_mid_end == prefix_len {
        return Ok(None);
    }
    let edit = StringPatchEdit {
        start: prefix_len,
        delete_count: old_mid_end - prefix_len,
        text: text_between(new_tokens, prefix_len, new_mid_end),
    };
    let mut edits: Vec<StringPatchEdit> = Vec::new();
    edits.push(edit);
    assert(action::string_edit_views(edits@) =~= seq![edit@]);
    patch_plan(edits, path, path_segment_pool)
}

/// Turns the steps of a script into patch edits, the last one first.
pub fn string_edit_ops_to_patch_edits(
    operations: &[EditOp],
    new_tokens: &[char],
    prefix_offset: usize,
) -> (edits: Vec<StringPatchEdit>)
    requires
        hunks::in_reach(myers::op_views(operations@), new_tokens@.len() as int),
        prefix_offset + myers::end_of(myers::op_views(operations@)).0 <= usize::MAX,
    ensures
        action::string_edit_views(edits@) == hunks::script_edits(
            myers::op_views(operations@),
            new_tokens@,
            prefix_offset as int,
        ),
{
    let ghost ops = myers::op_views(operations@);
    let ghost all = hunks::script_edits(ops, new_tokens@, prefix_offset as int);
    let runs: Vec<Hunk> = hunks::collect_hunks(operations);
    let ghost models = hunks::hunk_views(runs@);
    let mut edits: Vec<StringPatchEdit> = Vec::new();
    let mut i: usize = runs.len();
    assert(action::string_edit_views(edits@) =~= all.take(0));
    while i > 0
        invariant
            i <= runs@.len(),
            models == hunks::hunk_views(runs@),
            models == hunks::hunks(ops),
            hunks::in_reach(ops, new_tokens@.len() as int),
            prefix_offset + myers::end_of(ops).0 <= usize::MAX,
            all == hunks::script_edits(ops, new_tokens@, prefix_offset as int),
            action::string_edit_views(edits@) == all.take(runs@.len() - i),
        decreases i,
    {
        i = i - 1;
        let run: &Hunk = &runs[i];
        let ghost before = action::string_edit_views(edits@);
        proof {
            hunks::lemma_hunk_bounds(ops, new_tokens@.len() as int, i as int);
            assert(models[i as int] == run@);
            assert forall|k: int| 0 <= k < run.inserted@.len() implies 0
                <= #[trigger] hunks::index_views(run.inserted@)[k] < new_tokens@.len() by {
                assert(run@.inserted[k] == hunks::index_views(run.inserted@)[k]);
            }
        }
        let mut text = String::new();
        let mut j: usize = 0;
        while j < run.inserted.len()
            invariant
                j <= run.inserted@.len(),
                forall|k: int|
                    0 <= k < run.inserted@.len() ==> 0 <= #[trigger] hunks::index_views(
                        run.inserted@,
                    )[k] < new_tokens@.len(),
                text@ == hunks::picked(hunks::index_views(run.inserted@), new_tokens@).take(
                    j as int,
                ),
            decreases run.inserted@.len() - j,
        {
            let ghost picked = hunks::picked(hunks::index_views(run.inserted@), new_tokens@);
            assert(hunks::index_views(run.inserted@)[j as int] == run.inserted@[j as int]);
            text.push(new_tokens[run.inserted[j]]);
            j = j + 1;
            assert(text@ =~= picked.take(j as int));
        }
        let edit = StringPatchEdit {
            start: prefix_offset + run.start,
            delete_count: run.delete_count,
            text,
        };
        proof {
            let picked = hunks::picked(hunks::index_views(run.inserted@), new_tokens@);
            assert(picked.take(j as int) =~= picked);
            assert(edit@ == all[runs@.len() - 1 - i]);
        }
        edits.push(edit);
        assert(action::string_edit_views(edits@) =~= before.push(edit@));
        assert(action::string_edit_views(edits@) =~= all.take(runs@.len() - i));
    }
    assert(all.take(runs@.len() as int) =~= all);
    edits
}

/// Plans to follow a shortest script between the common prefix and suffix.
fn myers_string_patch_plan(
    old_tokens: &[char],
    new_tokens: &[char],
    path: &[PathSegment],
    path_segment_pool: &ProducerPathSegmentPool,
) -> (result: Result<Option<DiffPlan>, JsyncError>)
    ensures
        result matches Ok(found) && cost::planned(
            found,
            script_patch_acts(old_tokens@, new_tokens@, action::path_view(path@)),
            path_segment_pool@,
        ),
{
    let ghost p = myers::problem_of(old_tokens@, new_tokens@);
    let prefix_len: usize = sequences::common_prefix_len(old_tokens, new_tokens);
    let suffix_len: usize = sequences::common_suffix_len(old_tokens, new_tokens, prefix_len);
    let old_mid_end: usize = old_tokens.len() - suffix_len;
    let new_mid_end: usize = new_tokens.len() - suffix_len;
    if !sequences::should_run_myers(old_mid_end - prefix_len, new_mid_end - prefix_len) {
        return Ok(None);
    }
    let old_middle: &[char] = vstd::slice::slice_subrange(old_tokens, prefix_len, old_mid_end);
    let new_middle: &[char] = vstd::slice::slice_subrange(new_tokens, prefix_len, new_mid_end);
    let operations: Vec<EditOp> = myers::myers_diff(old_middle, new_middle);
    proof {
        let q = myers::problem_of(old_middle@, new_middle@);
        myers::law_script_leads_to_the_end(q);
        hunks::lemma_fits_in_reach(q.script(), q.alike);
    }
    let edits = string_edit_ops_to_patch_edits(operations.as_slice(), new_middle, prefix_len);
    assert(action::string_edit_views(edits@).len() == edits@.len());
    if edits.len() == 0 {
        return Ok(None);
    }
    patch_plan(edits, path, path_segment_pool)
}

/// Plans to turn a string into another one, given the plan that replaces it.
pub(crate) fn diff_strings(
    old: &str,
    new: &str,
    path: &[PathSegment],
    replace: DiffPlan,
    path_segment_pool: &ProducerPathSegmentPool,
) -> (result: Result<DiffPlan, JsyncError>)
    requires
        replace.well_formed(path_segment_pool@),
        replace.acts() == seq![
            Act::Replace { path: action::path_view(path@), value: Json::String(new@) },
        ],
    ensures
        result matches Ok(plan) && plan.well_formed(path_segment_pool@) && plan.acts()
            == string_acts(old@, new@, action::path_view(path@), path_segment_pool@),
{
    let ghost at = action::path_view(path@);
    let ghost pool = path_segment_pool@;
    let old_tokens: Vec<char> = text::string_tokens(old);
    let new_tokens: Vec<char> = text::string_tokens(new);
    let a: &[char] = old_tokens.as_slice();
    let b: &[char] = new_tokens.as_slice();

    let append = match append_plan(a, b, path, path_segment_pool) {
        Ok(found) => found,
        Err(e) => return Err(e),
    };
    let best = cost::choose_considered(replace, append, Ghost(append_acts(old@, new@, at)), Ghost(pool));

    let prepend = match prepend_plan(a, b, path, path_segment_pool) {
        Ok(found) => found,
        Err(e) => return Err(e),
    };
    let best = cost::choose_considered(best, prepend, Ghost(prepend_acts(old@, new@, at)), Ghost(pool));

    let surround = match surround_plan(a, b, path, path_segment_pool) {
        Ok(found) => found,
        Err(e) => return Err(e),
    };
    let best = cost::choose_considered(best, surround, Ghost(surround_acts(old@, new@, at)), Ghost(pool));

    let single_patch = match single_string_patch_plan(a, b, path, path_segment_pool) {
        Ok(found) => found,
        Err(e) => return Err(e),
    };
    let best = cost::choose_considered(best, single_patch, Ghost(single_patch_acts(old@, new@, at)), Ghost(pool));

    let myers_patch = match myers_string_patch_plan(a, b, path, path_segment_pool) {
        Ok(found) => found,
        Err(e) => return Err(e),
    };
    Ok(cost::choose_considered(best, myers_patch, Ghost(script_patch_acts(old@, new@, at)), Ghost(pool)))
}

} // verus!
