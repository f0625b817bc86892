//! Patch edits on sequences.

use vstd::prelude::*;

use crate::error;
use crate::error::{ErrorModel, JsyncError, JsyncErrorKind};
use crate::message::action::Edit;
use crate::text;

verus! {

/// How the failures of a patch are worded.
pub struct PatchTexts {
    /// There is no edit.
    pub empty: &'static str,
    /// An edit neither deletes nor inserts.
    pub no_effect: &'static str,
    /// The range of an edit is not a machine number.
    pub too_large: &'static str,
    /// The range of an edit is not within the sequence.
    pub outside: &'static str,
    /// Two edits are not in descending order or overlap.
    pub order: &'static str,
}

/// How the failures of a patch are worded.
pub struct PatchWording {
    /// There is no edit.
    pub empty: Seq<char>,
    /// An edit neither deletes nor inserts.
    pub no_effect: Seq<char>,
    /// The range of an edit is not a machine number.
    pub too_large: Seq<char>,
    /// The range of an edit is not within the sequence.
    pub outside: Seq<char>,
    /// Two edits are not in descending order or overlap.
    pub order: Seq<char>,
}

impl View for PatchTexts {
    type V = PatchWording;

    open spec fn view(&self) -> PatchWording {
        PatchWording {
            empty: self.empty@,
            no_effect: self.no_effect@,
            too_large: self.too_large@,
            outside: self.outside@,
            order: self.order@,
        }
    }
}

/// An error in a patch.
pub open spec fn patch_error(message: Seq<char>) -> ErrorModel {
    error::failure(JsyncErrorKind::InvalidJsonValue, message)
}

/// The error of the edit at `at`, if there is one, on a sequence of `length` items.
pub open spec fn edit_error<T>(
    edits: Seq<Edit<T>>,
    at: int,
    length: int,
    words: PatchWording,
) -> Option<ErrorModel> {
    let edit = edits[at];
    let end = edit.start + edit.delete_count;
    if edit.delete_count == 0 && edit.items.len() == 0 {
        Some(patch_error(words.no_effect).with_metadata("edit_index"@, text::decimal(at)))
    } else if end > usize::MAX {
        Some(patch_error(words.too_large).with_metadata("edit_index"@, text::decimal(at)))
    } else if end > length {
        Some(
            patch_error(words.outside).with_metadata(
                "edit_index"@,
                text::decimal(at),
            ).with_metadata("start"@, text::decimal(edit.start)).with_metadata(
                "delete_count"@,
                text::decimal(edit.delete_count),
            ).with_metadata("length"@, text::decimal(length)),
        )
    } else if at > 0 && end > edits[at - 1].start {
        Some(patch_error(words.order).with_metadata("edit_index"@, text::decimal(at)))
    } else {
        None
    }
}

/// The first error of the first `count` edits.
pub open spec fn first_edit_error<T>(
    edits: Seq<Edit<T>>,
    count: nat,
    length: int,
    words: PatchWording,
) -> Option<ErrorModel>
    decreases count,
{
    if count == 0 || count > edits.len() {
        None
    } else {
        match first_edit_error(edits, (count - 1) as nat, length, words) {
            Some(e) => Some(e),
            None => edit_error(edits, count - 1, length, words),
        }
    }
}

/// The error of a patch on a sequence of `length` items, if there is one.
pub open spec fn edits_error<T>(edits: Seq<Edit<T>>, length: int, words: PatchWording) -> Option<
    ErrorModel,
> {
    if edits.len() == 0 {
        Some(patch_error(words.empty))
    } else {
        first_edit_error(edits, edits.len(), length, words)
    }
}

/// A sequence after one edit.
pub open spec fn spliced<T>(items: Seq<T>, edit: Edit<T>) -> Seq<T> {
    items.take(edit.start) + edit.items + items.skip(edit.start + edit.delete_count)
}

/// A sequence after the first `count` edits.
pub open spec fn patched<T>(items: Seq<T>, edits: Seq<Edit<T>>, count: nat) -> Seq<T>
    decreases count,
{
    if count == 0 || count > edits.len() {
        items
    } else {
        spliced(patched(items, edits, (count - 1) as nat), edits[count - 1])
    }
}

/// An error among the first edits is the error of the patch.
pub proof fn lemma_first_edit_error<T>(
    edits: Seq<Edit<T>>,
    count: nat,
    length: int,
    words: PatchWording,
)
    requires
        count <= edits.len(),
        first_edit_error(edits, count, length, words) is Some,
    ensures
        first_edit_error(edits, edits.len(), length, words) == first_edit_error(
            edits,
            count,
            length,
            words,
        ),
    decreases edits.len() - count,
{
    if count < edits.len() {
        lemma_first_edit_error(edits, count + 1, length, words);
    }
}

/// Without an error, no edit has one.
pub proof fn lemma_edit_fine<T>(
    edits: Seq<Edit<T>>,
    count: nat,
    length: int,
    words: PatchWording,
    at: int,
)
    requires
        0 <= at < count <= edits.len(),
        first_edit_error(edits, count, length, words) is None,
    ensures
        edit_error(edits, at, length, words) is None,
    decreases count,
{
    if at < count - 1 {
        lemma_edit_fine(edits, (count - 1) as nat, length, words, at);
    }
}

/// Where no edit has an error, each edit lies within what the edits before it have left alone.
pub proof fn lemma_patched<T>(
    items: Seq<T>,
    edits: Seq<Edit<T>>,
    count: nat,
    words: PatchWording,
)
    requires
        count <= edits.len(),
        first_edit_error(edits, edits.len(), items.len() as int, words) is None,
        forall|i: int|
            0 <= i < edits.len() ==> (#[trigger] edits[i]).start >= 0 && edits[i].delete_count >= 0,
    ensures
        ({
            let limit = if count == 0 {
                items.len() as int
            } else {
                edits[count - 1].start
            };
            &&& 0 <= limit <= items.len()
            &&& limit <= patched(items, edits, count).len()
            &&& patched(items, edits, count).take(limit) == items.take(limit)
        }),
    decreases count,
{
    if count > 0 {
        lemma_patched(items, edits, (count - 1) as nat, words);
        lemma_edit_fine(edits, edits.len(), items.len() as int, words, count - 1);
        let before = patched(items, edits, (count - 1) as nat);
        let edit = edits[count - 1];
        let limit = if count == 1 {
            items.len() as int
        } else {
            edits[count - 2].start
        };
        assert(edit.start + edit.delete_count <= limit);
        assert(before.take(limit).take(edit.start) =~= before.take(edit.start));
        assert(items.take(limit).take(edit.start) =~= items.take(edit.start));
        assert(spliced(before, edit).take(edit.start) =~= items.take(edit.start));
    }
}

/// The checks of one edit that do not look at what it inserts beyond whether it does.
pub fn find_edit_error(
    at: usize,
    start: usize,
    delete_count: usize,
    inserts: bool,
    previous_start: Option<usize>,
    length: usize,
    words: &PatchTexts,
) -> (found: Option<JsyncError>)
    ensures
        ({
            let end = start + delete_count;
            let expected = if delete_count == 0 && !inserts {
                Some(
                    patch_error(words@.no_effect).with_metadata(
                        "edit_index"@,
                        text::decimal(at as int),
                    ),
                )
            } else if end > usize::MAX {
                Some(
                    patch_error(words@.too_large).with_metadata(
                        "edit_index"@,
                        text::decimal(at as int),
                    ),
                )
            } else if end > length {
                Some(
                    patch_error(words@.outside).with_metadata(
                        "edit_index"@,
                        text::decimal(at as int),
                    ).with_metadata("start"@, text::decimal(start as int)).with_metadata(
                        "delete_count"@,
                        text::decimal(delete_count as int),
                    ).with_metadata("length"@, text::decimal(length as int)),
                )
            } else if previous_start is Some && end > previous_start->0 {
                Some(
                    patch_error(words@.order).with_metadata(
                        "edit_index"@,
                        text::decimal(at as int),
                    ),
                )
            } else {
                None
            };
            match found {
                Some(e) => expected == Some(e@),
                None => expected is None,
            }
        }),
{
    if delete_count == 0 && !inserts {
        return Some(
            JsyncError::new(JsyncErrorKind::InvalidJsonValue, words.no_effect).with_metadata(
                "edit_index",
                text::count_text(at).as_str(),
            ),
        );
    }
    let end: usize = match start.checked_add(delete_count) {
        Some(end) => end,
        None => {
            return Some(
                JsyncError::new(JsyncErrorKind::InvalidJsonValue, words.too_large).with_metadata(
                    "edit_index",
                    text::count_text(at).as_str(),
                ),
            );
        },
    };
    if end > length {
        return Some(
            JsyncError::new(JsyncErrorKind::InvalidJsonValue, words.outside).with_metadata(
                "edit_index",
                text::count_text(at).as_str(),
            ).with_metadata("start", text::count_text(start).as_str()).with_metadata(
                "delete_count",
                text::count_text(delete_count).as_str(),
            ).with_metadata("length", text::count_text(length).as_str()),
        );
    }
    if let Some(previous_start) = previous_start {
        if end > previous_start {
            return Some(
                JsyncError::new(JsyncErrorKind::InvalidJsonValue, words.order).with_metadata(
                    "edit_index",
                    text::count_text(at).as_str(),
                ),
            );
        }
    }
    None
}

/// Replaces a range of a sequence.
pub fn replace_range<T>(items: &mut Vec<T>, start: usize, delete_count: usize, inserted: Vec<T>)
    requires
        start + delete_count <= old(items)@.len(),
    ensures
        final(items)@ == spliced(
            old(items)@,
            (Edit { start: start as int, delete_count: delete_count as int, items: inserted@ }),
        ),
{
    let ghost before = items@;
    let mut inserted = inserted;
    let ghost middle = inserted@;
    let _length: usize = items.len();
    let mut tail = items.split_off(start + delete_count);
    items.truncate(start);
    assert(items@ =~= before.take(start as int));
    assert(tail@ =~= before.skip(start + delete_count));
    items.append(&mut inserted);
    items.append(&mut tail);
    assert(items@ =~= before.take(start as int) + middle + before.skip(start + delete_count));
}

} // verus!
