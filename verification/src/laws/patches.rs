//! Patches between sequences make the new one of the old one.

use vstd::prelude::*;

use crate::message::action::Edit;
use crate::patch;
use crate::patch::PatchWording;
use crate::producer::hunks;
use crate::producer::myers;
use crate::producer::myers::Problem;
use crate::producer::sequences;

verus! {

/// Whether items that are alike are equal.
pub open spec fn tells_equal<T>(p: Problem, old: Seq<T>, new: Seq<T>) -> bool {
    &&& p.n == old.len()
    &&& p.m == new.len()
    &&& forall|i: int, j: int|
        0 <= i < old.len() && 0 <= j < new.len() && #[trigger] (p.alike)(i, j) ==> old[i] == new[j]
}

/// The common prefix and suffix are common.
proof fn lemma_common_ends<T>(p: Problem, old: Seq<T>, new: Seq<T>)
    requires
        tells_equal(p, old, new),
    ensures
        ({
            let prefix = sequences::prefix_len(p);
            let suffix = sequences::suffix_len(p);
            &&& 0 <= prefix
            &&& 0 <= suffix
            &&& prefix + suffix <= old.len()
            &&& prefix + suffix <= new.len()
            &&& old.take(prefix) == new.take(prefix)
            &&& old.skip(old.len() - suffix) == new.skip(new.len() - suffix)
        }),
{
    sequences::lemma_ends(p);
    let prefix = sequences::prefix_len(p);
    let suffix = sequences::suffix_len(p);
    assert forall|i: int| 0 <= i < prefix implies old[i] == new[i] by {
        assert((p.alike)(i, i));
    }
    assert(old.take(prefix) =~= new.take(prefix));
    let a = old.skip(old.len() - suffix);
    let b = new.skip(new.len() - suffix);
    assert forall|i: int| 0 <= i < suffix implies a[i] == b[i] by {
        let back = suffix - 1 - i;
        assert((p.alike)(p.n - 1 - back, p.m - 1 - back));
    }
    assert(a =~= b);
}

/// Replacing what lies between the common prefix and suffix makes the new sequence of the old one.
pub proof fn lemma_single_patch<T>(p: Problem, old: Seq<T>, new: Seq<T>, words: PatchWording)
    requires
        tells_equal(p, old, new),
        old.len() <= usize::MAX,
        sequences::middle(old, p).len() > 0 || sequences::middle(new, p).len() > 0,
    ensures
        ({
            let edits = seq![
                Edit {
                    start: sequences::prefix_len(p),
                    delete_count: sequences::middle(old, p).len() as int,
                    items: sequences::middle(new, p),
                },
            ];
            &&& patch::edits_error(edits, old.len() as int, words) is None
            &&& patch::patched(old, edits, edits.len()) == new
        }),
{
    lemma_common_ends(p, old, new);
    let prefix = sequences::prefix_len(p);
    let suffix = sequences::suffix_len(p);
    let edit = Edit {
        start: prefix,
        delete_count: sequences::middle(old, p).len() as int,
        items: sequences::middle(new, p),
    };
    let edits = seq![edit];
    assert(edits[0] == edit);
    assert(patch::first_edit_error(edits, 0, old.len() as int, words) is None);
    assert(patch::edit_error(edits, 0, old.len() as int, words) is None);
    assert(patch::first_edit_error(edits, 1, old.len() as int, words) is None);
    assert(patch::patched(old, edits, 0) == old);
    assert(patch::patched(old, edits, 1) == patch::spliced(old, edit));
    assert(patch::spliced(old, edit) =~= new.take(prefix) + new.subrange(
        prefix,
        new.len() - suffix,
    ) + new.skip(new.len() - suffix));
    assert(patch::spliced(old, edit) =~= new);
}

/// Following a script between the common prefix and suffix makes the new sequence of the old one.
pub proof fn lemma_script_patch<T>(
    p: Problem,
    q: Problem,
    old: Seq<T>,
    new: Seq<T>,
    words: PatchWording,
)
    requires
        tells_equal(p, old, new),
        tells_equal(q, sequences::middle(old, p), sequences::middle(new, p)),
        old.len() <= usize::MAX,
        hunks::script_edits(
            q.script(),
            sequences::middle(new, p),
            sequences::prefix_len(p),
        ).len() > 0,
    ensures
        ({
            let edits = hunks::script_edits(
                q.script(),
                sequences::middle(new, p),
                sequences::prefix_len(p),
            );
            &&& patch::edits_error(edits, old.len() as int, words) is None
            &&& patch::patched(old, edits, edits.len()) == new
        }),
{
    lemma_common_ends(p, old, new);
    myers::law_script_leads_to_the_end(q);
    let prefix = sequences::prefix_len(p);
    let suffix = sequences::suffix_len(p);
    let from = sequences::middle(old, p);
    let middle = sequences::middle(new, p);
    assert forall|j: int| 0 <= j < middle.len() implies #[trigger] middle[j] == new[prefix + j] by {
    }
    assert forall|i: int, j: int|
        0 <= i < from.len() && 0 <= j < middle.len() && #[trigger] (q.alike)(i, j) implies old[prefix
        + i] == new[prefix + j] by {
        assert(from[i] == middle[j]);
    }
    hunks::lemma_script_edits(q.script(), old, new, middle, prefix, q.alike, words);
}

/// The positions of an accepted patch are those in the original sequence: making its edits one
/// after the other gives what replacing each of its ranges of the original at once gives.
pub proof fn law_edits_are_measured_against_the_original<T>(
    items: Seq<T>,
    edits: Seq<Edit<T>>,
    words: PatchWording,
)
    requires
        forall|i: int|
            0 <= i < edits.len() ==> (#[trigger] edits[i]).start >= 0 && edits[i].delete_count
                >= 0,
        patch::edits_error(edits, items.len() as int, words) is None,
    ensures
        patch::patched(items, edits, edits.len()) == hunks::rebuilt(
            items,
            edits.reverse(),
            items.len() as int,
        ),
{
    let ascending = edits.reverse();
    assert(ascending.reverse() =~= edits);
    assert forall|i: int| 0 <= i < ascending.len() implies {
        &&& 0 <= (#[trigger] ascending[i]).start
        &&& 0 <= ascending[i].delete_count
        &&& ascending[i].start + ascending[i].delete_count <= if i + 1 < ascending.len() {
            ascending[i + 1].start
        } else {
            items.len() as int
        }
    } by {
        let at = edits.len() - 1 - i;
        assert(ascending[i] == edits[at]);
        lemma_accepted(edits, edits.len(), items.len() as int, words, at);
        if i + 1 < ascending.len() {
            assert(ascending[i + 1] == edits[at - 1]);
        }
    }
    hunks::lemma_patched_rebuilt(items, ascending);
}

/// Each edit of an accepted patch is accepted.
pub proof fn lemma_accepted<T>(
    edits: Seq<Edit<T>>,
    count: nat,
    length: int,
    words: PatchWording,
    i: int,
)
    requires
        0 <= i < count <= edits.len(),
        patch::first_edit_error(edits, count, length, words) is None,
    ensures
        patch::edit_error(edits, i, length, words) is None,
    decreases count,
{
    if i < count - 1 {
        lemma_accepted(edits, (count - 1) as nat, length, words, i);
    }
}

} // verus!
