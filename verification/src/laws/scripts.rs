//! Patch edits follow the runs of an edit script.

use vstd::prelude::*;

use crate::message::action::Edit;
use crate::patch;
use crate::patch::PatchWording;
use crate::producer::hunks;
use crate::producer::hunks::HunkModel;
use crate::producer::myers;
use crate::producer::myers::Op;

verus! {

/// Whether a run of steps that do not keep an item starts at a position.
pub open spec fn starts_run(ops: Seq<Op>, at: int) -> bool {
    &&& 0 <= at < ops.len()
    &&& !(ops[at] is Keep)
    &&& at == 0 || ops[at - 1] is Keep
}

/// Where the runs start among the first `count` steps, in their order.
pub open spec fn run_starts(ops: Seq<Op>, count: nat) -> Seq<int>
    decreases count,
{
    if count == 0 {
        Seq::empty()
    } else {
        let before = run_starts(ops, (count - 1) as nat);
        if starts_run(ops, count - 1) {
            before.push(count - 1)
        } else {
            before
        }
    }
}

/// Where the run that starts at a position ends among the first `count` steps: at the next step
/// that keeps an item.
pub open spec fn run_end(ops: Seq<Op>, from: int, count: int) -> int
    decreases count - from,
{
    if from < count && !(ops[from] is Keep) {
        run_end(ops, from + 1, count)
    } else {
        from
    }
}

/// The point to which the first `count` steps lead.
pub open spec fn point(ops: Seq<Op>, count: int) -> (int, int) {
    myers::end_of(ops.take(count))
}

/// The edit for the steps from one position up to another: it deletes and inserts what they do.
pub open spec fn edit_between<T>(
    ops: Seq<Op>,
    from: int,
    upto: int,
    new: Seq<T>,
    prefix: int,
) -> Edit<T> {
    Edit {
        start: prefix + point(ops, from).0,
        delete_count: point(ops, upto).0 - point(ops, from).0,
        items: new.subrange(point(ops, from).1, point(ops, upto).1),
    }
}

spec fn hunk_between(ops: Seq<Op>, from: int, upto: int) -> HunkModel {
    HunkModel {
        start: point(ops, from).0,
        delete_count: point(ops, upto).0 - point(ops, from).0,
        inserted: Seq::new(
            (point(ops, upto).1 - point(ops, from).1) as nat,
            |i: int| point(ops, from).1 + i,
        ),
    }
}

/// One more step.
proof fn lemma_point(ops: Seq<Op>, count: int)
    requires
        0 <= count < ops.len(),
    ensures
        point(ops, count + 1) == match ops[count] {
            Op::Keep => (point(ops, count).0 + 1, point(ops, count).1 + 1),
            Op::Delete => (point(ops, count).0 + 1, point(ops, count).1),
            Op::Insert(_) => (point(ops, count).0, point(ops, count).1 + 1),
        },
{
    assert(ops.take(count + 1).drop_last() =~= ops.take(count));
}

/// Steps lead on.
proof fn lemma_point_grows(ops: Seq<Op>, from: int, upto: int)
    requires
        0 <= from <= upto <= ops.len(),
    ensures
        0 <= point(ops, from).0 <= point(ops, upto).0,
        0 <= point(ops, from).1 <= point(ops, upto).1,
        upto - from <= point(ops, upto).0 - point(ops, from).0 + point(ops, upto).1 - point(
            ops,
            from,
        ).1,
    decreases upto,
{
    if upto == 0 {
        assert(ops.take(0) =~= Seq::empty());
    } else if from < upto {
        lemma_point_grows(ops, from, upto - 1);
        lemma_point(ops, upto - 1);
    } else {
        lemma_point_grows(ops, from - 1, upto - 1);
        lemma_point(ops, upto - 1);
    }
}

/// What a script that fits inserts at a step.
proof fn lemma_inserted(ops: Seq<Op>, alike: spec_fn(int, int) -> bool, at: int)
    requires
        myers::fits(ops, alike),
        0 <= at < ops.len(),
    ensures
        ops[at] matches Op::Insert(index) ==> index == point(ops, at).1,
    decreases ops.len(),
{
    let earlier = ops.drop_last();
    if at == ops.len() - 1 {
        assert(ops.take(at) =~= earlier);
    } else {
        lemma_inserted(earlier, alike, at);
        assert(earlier.take(at) =~= ops.take(at));
        assert(earlier[at] == ops[at]);
    }
}

/// Where a run ends among one step more.
proof fn lemma_run_end(ops: Seq<Op>, from: int, count: int)
    requires
        0 <= from <= count < ops.len(),
    ensures
        from <= run_end(ops, from, count) <= count,
        run_end(ops, from, count) < count ==> ops[run_end(ops, from, count)] is Keep,
        run_end(ops, from, count + 1) == if run_end(ops, from, count) == count && !(
        ops[count] is Keep) {
            count + 1
        } else {
            run_end(ops, from, count)
        },
    decreases count - from,
{
    if from < count && !(ops[from] is Keep) {
        lemma_run_end(ops, from + 1, count);
    } else if from == count {
        assert(run_end(ops, count + 1, count + 1) == count + 1);
    }
}

/// The run at a position of the list of starts.
spec fn nth_hunk(ops: Seq<Op>, count: nat, i: int) -> HunkModel {
    let from = run_starts(ops, count)[i];
    hunk_between(ops, from, run_end(ops, from, count as int))
}

/// What the runs collected from the first `count` steps are.
spec fn tracked_runs(ops: Seq<Op>, count: nat) -> bool {
    let s = hunks::progress(ops, count);
    let starts = run_starts(ops, count);
    let n = starts.len();
    &&& s.cursor == point(ops, count as int).0
    &&& hunks::finished(s).len() == n
    &&& s.open is Some <==> count > 0 && !(ops[count - 1] is Keep)
    &&& s.open is Some ==> n > 0 && run_end(ops, starts[n - 1], count as int) == count
    &&& forall|i: int|
        0 <= i < n ==> {
            &&& 0 <= #[trigger] starts[i] < count
            &&& starts_run(ops, starts[i])
            &&& hunks::finished(s)[i] == nth_hunk(ops, count, i)
        }
    &&& forall|i: int|
        0 <= i < s.done.len() ==> run_end(ops, #[trigger] starts[i], count as int) < count
    &&& forall|i: int|
        0 <= i < n - 1 ==> run_end(ops, #[trigger] starts[i], count as int) < starts[i + 1]
    &&& forall|at: int| starts_run(ops, at) && at < count ==> #[trigger] starts.contains(at)
}

#[verifier::rlimit(40)]
proof fn lemma_tracked_runs(ops: Seq<Op>, alike: spec_fn(int, int) -> bool, count: nat)
    requires
        myers::fits(ops, alike),
        count <= ops.len(),
    ensures
        tracked_runs(ops, count),
    decreases count,
{
    if count == 0 {
        assert(ops.take(0) =~= Seq::empty());
    } else {
        let at = count - 1;
        lemma_tracked_runs(ops, alike, at as nat);
        lemma_point(ops, at);
        lemma_inserted(ops, alike, at);
        let b = hunks::progress(ops, at as nat);
        let s = hunks::progress(ops, count);
        let before = run_starts(ops, at as nat);
        let starts = run_starts(ops, count);
        assert forall|i: int| 0 <= i < before.len() implies starts[i] == #[trigger] before[i] by {}
        assert forall|i: int| 0 <= i < before.len() implies ({
            let from = #[trigger] before[i];
            run_end(ops, from, count as int) == if run_end(ops, from, at) == at && !(
            ops[at] is Keep) {
                count as int
            } else {
                run_end(ops, from, at)
            }
        }) by {
            lemma_run_end(ops, before[i], at);
        }
        if ops[at] is Keep {
            assert(starts == before);
            assert(hunks::finished(s) == hunks::finished(b));
        } else {
            assert(s.done == b.done);
            if b.open is Some {
                assert(starts == before);
                lemma_longer_hunk(ops, before[before.len() - 1], at);
            } else {
                assert(starts == before.push(at));
                assert(run_end(ops, count as int, count as int) == count);
                assert(run_end(ops, at, count as int) == count);
                assert(hunk_between(ops, at, at).inserted =~= Seq::empty());
                lemma_longer_hunk(ops, at, at);
            }
        }
        assert forall|k: int| starts_run(ops, k) && k < count implies #[trigger] starts.contains(
            k,
        ) by {
            if k < at {
                assert(before.contains(k));
                let j = choose|j: int| 0 <= j < before.len() && before[j] == k;
                assert(starts[j] == k);
            } else {
                assert(starts[starts.len() - 1] == k);
            }
        }
        assert forall|i: int| 0 <= i < starts.len() implies ({
            &&& 0 <= #[trigger] starts[i] < count
            &&& starts_run(ops, starts[i])
            &&& hunks::finished(s)[i] == nth_hunk(ops, count, i)
        }) by {
            if i < before.len() {
                assert(hunks::finished(b)[i] == nth_hunk(ops, at as nat, i));
            }
        }
    }
}

/// A run that goes on.
proof fn lemma_longer_hunk(ops: Seq<Op>, from: int, at: int)
    requires
        0 <= from <= at < ops.len(),
        ops[at] matches Op::Insert(index) ==> index == point(ops, at).1,
    ensures
        hunk_between(ops, from, at + 1) == match ops[at] {
            Op::Insert(index) => HunkModel {
                inserted: hunk_between(ops, from, at).inserted.push(index),
                ..hunk_between(ops, from, at)
            },
            Op::Delete => HunkModel {
                delete_count: hunk_between(ops, from, at).delete_count + 1,
                ..hunk_between(ops, from, at)
            },
            Op::Keep => hunk_between(ops, from, at + 1),
        },
{
    lemma_point(ops, at);
    lemma_point_grows(ops, from, at);
    if let Op::Insert(index) = ops[at] {
        assert(hunk_between(ops, from, at + 1).inserted =~= hunk_between(
            ops,
            from,
            at,
        ).inserted.push(index));
    }
}

/// The patch edits for a script are its runs of steps that do not keep an item, the last one first:
/// there is one edit for each run, it deletes and inserts what the steps of the run do, which is
/// something, and at least one item stands between it and the next.
pub proof fn law_edits_are_the_runs_of_a_script<T>(
    ops: Seq<Op>,
    alike: spec_fn(int, int) -> bool,
    new: Seq<T>,
    prefix: int,
)
    requires
        myers::fits(ops, alike),
        myers::end_of(ops).1 <= new.len(),
    ensures
        ({
            let edits = hunks::script_edits(ops, new, prefix);
            let starts = run_starts(ops, ops.len());
            &&& edits.len() == starts.len()
            &&& forall|at: int| #[trigger] starts.contains(at) <==> starts_run(ops, at)
            &&& forall|i: int, j: int| 0 <= i < j < starts.len() ==> starts[i] < starts[j]
            &&& forall|i: int|
                0 <= i < edits.len() ==> {
                    let from = starts[edits.len() - 1 - i];
                    &&& #[trigger] edits[i] == edit_between(
                        ops,
                        from,
                        run_end(ops, from, ops.len() as int),
                        new,
                        prefix,
                    )
                    &&& edits[i].delete_count > 0 || edits[i].items.len() > 0
                }
            &&& forall|i: int|
                0 <= i < edits.len() - 1 ==> edits[i + 1].start + edits[i + 1].delete_count < (
                #[trigger] edits[i]).start
        }),
{
    let n = ops.len() as int;
    let edits = hunks::script_edits(ops, new, prefix);
    let starts = run_starts(ops, ops.len());
    lemma_tracked_runs(ops, alike, ops.len());
    assert forall|at: int| #[trigger] starts.contains(at) implies starts_run(ops, at) by {
        let j = choose|j: int| 0 <= j < starts.len() && starts[j] == at;
        assert(starts_run(ops, starts[j]));
    }
    assert forall|i: int, j: int| 0 <= i < j < starts.len() implies starts[i] < starts[j] by {
        lemma_starts_grow(ops, ops.len(), i, j);
    }
    assert forall|i: int| 0 <= i < edits.len() implies ({
        let from = starts[edits.len() - 1 - i];
        &&& #[trigger] edits[i] == edit_between(ops, from, run_end(ops, from, n), new, prefix)
        &&& edits[i].delete_count > 0 || edits[i].items.len() > 0
    }) by {
        lemma_edit(ops, new, prefix, i);
    }
    assert forall|i: int| 0 <= i < edits.len() - 1 implies edits[i + 1].start
        + edits[i + 1].delete_count < (#[trigger] edits[i]).start by {
        lemma_gap(ops, new, prefix, i);
    }
}

/// The edit for one run.
proof fn lemma_edit<T>(ops: Seq<Op>, new: Seq<T>, prefix: int, i: int)
    requires
        tracked_runs(ops, ops.len()),
        myers::end_of(ops).1 <= new.len(),
        0 <= i < hunks::script_edits(ops, new, prefix).len(),
    ensures
        ({
            let edits = hunks::script_edits(ops, new, prefix);
            let from = run_starts(ops, ops.len())[edits.len() - 1 - i];
            let upto = run_end(ops, from, ops.len() as int);
            &&& edits.len() == run_starts(ops, ops.len()).len()
            &&& edits[i] == edit_between(ops, from, upto, new, prefix)
            &&& edits[i].delete_count > 0 || edits[i].items.len() > 0
        }),
{
    let n = ops.len() as int;
    let edits = hunks::script_edits(ops, new, prefix);
    let starts = run_starts(ops, ops.len());
    let k = edits.len() - 1 - i;
    let from = starts[k];
    let upto = run_end(ops, from, n);
    assert(starts_run(ops, from));
    assert(ops.take(n) =~= ops);
    lemma_run_bounds(ops, from, n);
    lemma_point_grows(ops, from, upto);
    lemma_point_grows(ops, upto, n);
    let hunk = hunk_between(ops, from, upto);
    assert(hunks::hunks(ops)[k] == hunk);
    assert(hunks::picked(hunk.inserted, new) =~= new.subrange(
        point(ops, from).1,
        point(ops, upto).1,
    ));
}

/// An item stands between two edits.
proof fn lemma_gap<T>(ops: Seq<Op>, new: Seq<T>, prefix: int, i: int)
    requires
        tracked_runs(ops, ops.len()),
        myers::end_of(ops).1 <= new.len(),
        0 <= i < hunks::script_edits(ops, new, prefix).len() - 1,
    ensures
        ({
            let edits = hunks::script_edits(ops, new, prefix);
            edits[i + 1].start + edits[i + 1].delete_count < edits[i].start
        }),
{
    let n = ops.len() as int;
    let starts = run_starts(ops, ops.len());
    lemma_edit(ops, new, prefix, i);
    lemma_edit(ops, new, prefix, i + 1);
    let k = starts.len() - 2 - i;
    let end = run_end(ops, starts[k], n);
    let next = starts[k + 1];
    assert(starts_run(ops, next));
    assert(starts_run(ops, starts[k]));
    assert(end < next);
    lemma_run_bounds(ops, starts[k], n);
    lemma_point(ops, end);
    lemma_point_grows(ops, end + 1, next);
}

/// A run has a step, and ends in front of one that keeps an item or with the script.
proof fn lemma_run_bounds(ops: Seq<Op>, from: int, n: int)
    requires
        0 <= from <= n == ops.len(),
    ensures
        from <= run_end(ops, from, n) <= n,
        from < n && !(ops[from] is Keep) ==> from < run_end(ops, from, n),
        run_end(ops, from, n) < n ==> ops[run_end(ops, from, n)] is Keep,
    decreases n - from,
{
    if from < n && !(ops[from] is Keep) {
        lemma_run_bounds(ops, from + 1, n);
    }
}

proof fn lemma_starts_grow(ops: Seq<Op>, count: nat, i: int, j: int)
    requires
        0 <= i < j < run_starts(ops, count).len(),
    ensures
        0 <= run_starts(ops, count)[i] < run_starts(ops, count)[j] < count,
    decreases count,
{
    let before = run_starts(ops, (count - 1) as nat);
    lemma_starts_bounded(ops, (count - 1) as nat);
    if j < before.len() {
        lemma_starts_grow(ops, (count - 1) as nat, i, j);
    }
}

proof fn lemma_starts_bounded(ops: Seq<Op>, count: nat)
    ensures
        forall|i: int|
            0 <= i < run_starts(ops, count).len() ==> 0 <= #[trigger] run_starts(ops, count)[i]
                < count,
    decreases count,
{
    if count > 0 {
        lemma_starts_bounded(ops, (count - 1) as nat);
        let before = run_starts(ops, (count - 1) as nat);
        let starts = run_starts(ops, count);
        assert forall|i: int| 0 <= i < starts.len() implies 0 <= #[trigger] starts[i] < count by {
            if i < before.len() {
                assert(starts[i] == before[i]);
            }
        }
    }
}

/// A script that leads from one sequence to another gives patch edits that do so, behind whatever
/// stands in front of the sequences: a patch of them is accepted if there are any, and there are
/// none just when every step keeps an item.
pub proof fn law_edits_make_the_new_sequence<T>(
    ops: Seq<Op>,
    old: Seq<T>,
    new: Seq<T>,
    front: Seq<T>,
    words: PatchWording,
)
    requires
        myers::fits(ops, |i: int, j: int| old[i] == new[j]),
        myers::end_of(ops) == (old.len() as int, new.len() as int),
        front.len() + old.len() <= usize::MAX,
    ensures
        ({
            let edits = hunks::script_edits(ops, new, front.len() as int);
            &&& patch::patched(front + old, edits, edits.len()) == front + new
            &&& edits.len() > 0 ==> patch::edits_error(
                edits,
                (front + old).len() as int,
                words,
            ) is None
            &&& edits.len() == 0 <==> forall|i: int|
                0 <= i < ops.len() ==> #[trigger] ops[i] is Keep
        }),
{
    let alike = |i: int, j: int| old[i] == new[j];
    let prefix = front.len() as int;
    assert((front + old).take(prefix) =~= front);
    assert((front + new).take(prefix) =~= front);
    assert((front + old).skip((front + old).len() as int) =~= Seq::empty());
    assert((front + new).skip((front + new).len() as int) =~= Seq::empty());
    hunks::lemma_script_edits(ops, front + old, front + new, new, prefix, alike, words);
    law_edits_are_the_runs_of_a_script(ops, alike, new, prefix);
    let starts = run_starts(ops, ops.len());
    if starts.len() > 0 {
        assert(starts.contains(starts[0]));
    } else {
        assert forall|at: int| !starts_run(ops, at) by {
            assert(!starts.contains(at));
        }
        assert forall|i: int| 0 <= i < ops.len() implies #[trigger] ops[i] is Keep by {
            lemma_all_kept(ops, i);
        }
    }
}

proof fn lemma_all_kept(ops: Seq<Op>, i: int)
    requires
        0 <= i < ops.len(),
        forall|at: int| !starts_run(ops, at),
    ensures
        ops[i] is Keep,
    decreases i,
{
    assert(!starts_run(ops, i));
    if i > 0 {
        lemma_all_kept(ops, i - 1);
    }
}

} // verus!
