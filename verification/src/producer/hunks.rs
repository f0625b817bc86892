//! Patch edits from edit scripts.

use vstd::prelude::*;

use crate::message::action::Edit;
use crate::patch;
use crate::patch::PatchWording;
use crate::producer::myers;
use crate::producer::myers::{EditOp, Op};

verus! {

/// A run of edits between kept items.
#[derive(Debug)]
pub struct Hunk {
    /// Where it starts in the old sequence.
    pub start: usize,
    /// How many items of the old sequence it deletes.
    pub delete_count: usize,
    /// The indexes of the items of the new sequence that it inserts.
    pub inserted: Vec<usize>,
}

/// The model of a run of edits.
#[verifier::ext_equal]
pub struct HunkModel {
    /// Where it starts in the old sequence.
    pub start: int,
    /// How many items of the old sequence it deletes.
    pub delete_count: int,
    /// The indexes of the items of the new sequence that it inserts.
    pub inserted: Seq<int>,
}

/// Indexes as integers.
pub open spec fn index_views(indexes: Seq<usize>) -> Seq<int> {
    Seq::new(indexes.len(), |i: int| indexes[i] as int)
}

impl View for Hunk {
    type V = HunkModel;

    open spec fn view(&self) -> HunkModel {
        HunkModel {
            start: self.start as int,
            delete_count: self.delete_count as int,
            inserted: index_views(self.inserted@),
        }
    }
}

/// The models of runs of edits.
pub open spec fn hunk_views(hunks: Seq<Hunk>) -> Seq<HunkModel> {
    Seq::new(hunks.len(), |i: int| hunks[i]@)
}

/// The runs of edits of the first steps of a script.
#[verifier::ext_equal]
pub struct Progress {
    /// The runs that are finished.
    pub done: Seq<HunkModel>,
    /// The run that may go on.
    pub open: Option<HunkModel>,
    /// How many items of the old sequence have been dealt with.
    pub cursor: int,
}

/// The finished runs, with the open one.
pub open spec fn finished(progress: Progress) -> Seq<HunkModel> {
    match progress.open {
        Some(hunk) => progress.done.push(hunk),
        None => progress.done,
    }
}

/// The run that a further edit goes on with.
pub open spec fn current(progress: Progress) -> HunkModel {
    match progress.open {
        Some(hunk) => hunk,
        None => HunkModel { start: progress.cursor, delete_count: 0, inserted: Seq::empty() },
    }
}

/// The runs of edits after one more step.
pub open spec fn advance(progress: Progress, op: Op) -> Progress {
    match op {
        Op::Keep => Progress {
            done: finished(progress),
            open: None,
            cursor: progress.cursor + 1,
        },
        Op::Delete => Progress {
            done: progress.done,
            open: Some(
                HunkModel {
                    delete_count: current(progress).delete_count + 1,
                    ..current(progress)
                },
            ),
            cursor: progress.cursor + 1,
        },
        Op::Insert(index) => Progress {
            done: progress.done,
            open: Some(
                HunkModel {
                    inserted: current(progress).inserted.push(index),
                    ..current(progress)
                },
            ),
            cursor: progress.cursor,
        },
    }
}

/// The runs of edits of the first `count` steps of a script.
pub open spec fn progress(ops: Seq<Op>, count: nat) -> Progress
    decreases count,
{
    if count == 0 || count > ops.len() {
        Progress { done: Seq::empty(), open: None, cursor: 0 }
    } else {
        advance(progress(ops, (count - 1) as nat), ops[count - 1])
    }
}

/// The runs of edits of a script, in the order of the sequence.
pub open spec fn hunks(ops: Seq<Op>) -> Seq<HunkModel> {
    finished(progress(ops, ops.len()))
}

/// The items at some indexes.
pub open spec fn picked<T>(indexes: Seq<int>, items: Seq<T>) -> Seq<T> {
    Seq::new(indexes.len(), |i: int| items[indexes[i]])
}

/// The patch edit for a run of edits, behind `prefix` items that are left alone.
pub open spec fn hunk_edit<T>(hunk: HunkModel, new: Seq<T>, prefix: int) -> Edit<T> {
    Edit {
        start: prefix + hunk.start,
        delete_count: hunk.delete_count,
        items: picked(hunk.inserted, new),
    }
}

/// The patch edits for a script, the last one first.
pub open spec fn script_edits<T>(ops: Seq<Op>, new: Seq<T>, prefix: int) -> Seq<Edit<T>> {
    let runs = hunks(ops);
    Seq::new(runs.len(), |i: int| hunk_edit(runs[runs.len() - 1 - i], new, prefix))
}

/// Whether a script inserts only items of a sequence of some length.
pub open spec fn in_reach(ops: Seq<Op>, length: int) -> bool {
    forall|i: int|
        0 <= i < ops.len() ==> (#[trigger] ops[i] matches Op::Insert(index) ==> 0 <= index
            < length)
}

/// Whether a run lies in front of the first `cursor` items, and inserts only items of a sequence
/// of some length.
pub open spec fn run_bounded(hunk: HunkModel, cursor: int, length: int) -> bool {
    &&& 0 <= hunk.start
    &&& 0 <= hunk.delete_count
    &&& hunk.start + hunk.delete_count <= cursor
    &&& forall|k: int|
        0 <= k < hunk.inserted.len() ==> 0 <= #[trigger] hunk.inserted[k] < length
}

proof fn lemma_progress(ops: Seq<Op>, count: nat, length: int)
    requires
        count <= ops.len(),
        in_reach(ops, length),
    ensures
        ({
            let s = progress(ops, count);
            &&& 0 <= s.cursor == myers::end_of(ops.take(count as int)).0
            &&& forall|i: int|
                0 <= i < finished(s).len() ==> run_bounded(
                    #[trigger] finished(s)[i],
                    s.cursor,
                    length,
                )
        }),
    decreases count,
{
    if count > 0 {
        lemma_progress(ops, (count - 1) as nat, length);
        assert(ops.take(count as int).drop_last() =~= ops.take(count - 1));
        let b = progress(ops, (count - 1) as nat);
        let s = progress(ops, count);
        assert(ops[count - 1] matches Op::Insert(index) ==> 0 <= index < length);
        assert(run_bounded(current(b), b.cursor, length)) by {
            if b.open is Some {
                assert(finished(b)[finished(b).len() - 1] == current(b));
            }
        }
        assert forall|i: int| 0 <= i < finished(s).len() implies run_bounded(
            #[trigger] finished(s)[i],
            s.cursor,
            length,
        ) by {
            if i < s.done.len() {
                assert(finished(s)[i] == finished(b)[i]);
            }
        }
    }
}

/// A run of a script ends where the script does at the latest, and inserts only what it does.
pub proof fn lemma_hunk_bounds(ops: Seq<Op>, length: int, i: int)
    requires
        in_reach(ops, length),
        0 <= i < hunks(ops).len(),
    ensures
        run_bounded(hunks(ops)[i], myers::end_of(ops).0, length),
{
    lemma_progress(ops, ops.len(), length);
    assert(ops.take(ops.len() as int) =~= ops);
    let s = progress(ops, ops.len());
    assert(run_bounded(finished(s)[i], s.cursor, length));
}

/// A script that fits inserts only items in front of its end.
pub proof fn lemma_fits_in_reach(ops: Seq<Op>, alike: spec_fn(int, int) -> bool)
    requires
        myers::fits(ops, alike),
    ensures
        in_reach(ops, myers::end_of(ops).1),
    decreases ops.len(),
{
    if ops.len() > 0 {
        lemma_fits_in_reach(ops.drop_last(), alike);
        lemma_end_bounds(ops);
        lemma_end_bounds(ops.drop_last());
        let length = myers::end_of(ops).1;
        assert forall|i: int| 0 <= i < ops.len() implies (#[trigger] ops[i] matches Op::Insert(
            index,
        ) ==> 0 <= index < length) by {
            if i < ops.len() - 1 {
                assert(ops.drop_last()[i] == ops[i]);
            }
        }
    }
}

/// Collects the runs of edits of a script.
pub fn collect_hunks(ops: &[EditOp]) -> (result: Vec<Hunk>)
    ensures
        hunk_views(result@) == hunks(myers::op_views(ops@)),
{
    let ghost steps = myers::op_views(ops@);
    let mut done: Vec<Hunk> = Vec::new();
    let mut open: Option<Hunk> = None;
    let mut cursor: usize = 0;
    let mut i: usize = 0;
    assert(hunk_views(done@) =~= Seq::empty());
    while i < ops.len()
        invariant
            i <= ops@.len(),
            steps == myers::op_views(ops@),
            cursor <= i,
            progress(steps, i as nat).cursor == cursor,
            progress(steps, i as nat).done == hunk_views(done@),
            progress(steps, i as nat).open == match open {
                Some(hunk) => Some(hunk@),
                None => None,
            },
            open matches Some(hunk) ==> hunk.delete_count <= cursor,
        decreases ops@.len() - i,
    {
        assert(steps[i as int] == ops@[i as int]@);
        match ops[i] {
            EditOp::Keep => {
                let ghost before = hunk_views(done@);
                if let Some(hunk) = open {
                    done.push(hunk);
                    assert(hunk_views(done@) =~= before.push(hunk@));
                }
                open = None;
                cursor = cursor + 1;
            },
            EditOp::Delete => {
                let mut hunk = match open {
                    Some(hunk) => hunk,
                    None => new_hunk(cursor),
                };
                hunk.delete_count = hunk.delete_count + 1;
                open = Some(hunk);
                cursor = cursor + 1;
            },
            EditOp::Insert(index) => {
                let mut hunk = match open {
                    Some(hunk) => hunk,
                    None => new_hunk(cursor),
                };
                let ghost before = index_views(hunk.inserted@);
                hunk.inserted.push(index);
                assert(index_views(hunk.inserted@) =~= before.push(index as int));
                open = Some(hunk);
            },
        }
        i = i + 1;
    }
    let ghost before = hunk_views(done@);
    if let Some(hunk) = open {
        done.push(hunk);
        assert(hunk_views(done@) =~= before.push(hunk@));
    }
    done
}

fn new_hunk(start: usize) -> (hunk: Hunk)
    ensures
        hunk@ == (HunkModel { start: start as int, delete_count: 0, inserted: Seq::empty() }),
{
    let hunk = Hunk { start, delete_count: 0, inserted: Vec::new() };
    assert(hunk@.inserted =~= Seq::empty());
    hunk
}

/// What edits, given in the order of the sequence, make of the first `upto` items.
pub open spec fn rebuilt<T>(items: Seq<T>, edits: Seq<Edit<T>>, upto: int) -> Seq<T>
    decreases edits.len(),
{
    if edits.len() == 0 {
        items.take(upto)
    } else {
        let edit = edits.last();
        rebuilt(items, edits.drop_last(), edit.start) + edit.items + items.subrange(
            edit.start + edit.delete_count,
            upto,
        )
    }
}

/// Whether edits, given in the order of the sequence, do not overlap and end at `upto` at the
/// latest.
pub open spec fn in_order<T>(edits: Seq<Edit<T>>, upto: int) -> bool {
    forall|i: int|
        0 <= i < edits.len() ==> {
            &&& 0 <= (#[trigger] edits[i]).start
            &&& 0 <= edits[i].delete_count
            &&& edits[i].start + edits[i].delete_count <= if i + 1 < edits.len() {
                edits[i + 1].start
            } else {
                upto
            }
        }
}

proof fn lemma_in_order_prefix<T>(edits: Seq<Edit<T>>, upto: int)
    requires
        edits.len() > 0,
        in_order(edits, upto),
    ensures
        in_order(edits.drop_last(), edits.last().start),
        0 <= edits.last().start,
        0 <= edits.last().delete_count,
        edits.last().start + edits.last().delete_count <= upto,
{
    let rest = edits.drop_last();
    assert forall|i: int| 0 <= i < rest.len() implies ({
        &&& 0 <= (#[trigger] rest[i]).start
        &&& 0 <= rest[i].delete_count
        &&& rest[i].start + rest[i].delete_count <= if i + 1 < rest.len() {
            rest[i + 1].start
        } else {
            edits.last().start
        }
    }) by {
        assert(rest[i] == edits[i]);
    }
    assert(edits.last() == edits[edits.len() - 1]);
}

/// Edits leave what stands in front of the first of them alone.
proof fn lemma_rebuilt_front<T>(items: Seq<T>, edits: Seq<Edit<T>>, upto: int, front: int)
    requires
        0 <= front <= upto <= items.len(),
        in_order(edits, upto),
        edits.len() > 0 ==> front <= edits[0].start,
    ensures
        rebuilt(items, edits, upto).len() >= front,
        rebuilt(items, edits, upto).take(front) == items.take(front),
    decreases edits.len(),
{
    if edits.len() == 0 {
        assert(items.take(upto).take(front) =~= items.take(front));
    } else {
        lemma_in_order_prefix(edits, upto);
        let edit = edits.last();
        let before = rebuilt(items, edits.drop_last(), edit.start);
        if edits.len() > 1 {
            assert(edits.drop_last()[0] == edits[0]);
            lemma_first_start(edits, upto);
        }
        lemma_rebuilt_front(items, edits.drop_last(), edit.start, front);
        assert(rebuilt(items, edits, upto).take(front) =~= before.take(front));
    }
}

proof fn lemma_first_start<T>(edits: Seq<Edit<T>>, upto: int)
    requires
        edits.len() > 0,
        in_order(edits, upto),
    ensures
        0 <= edits[0].start <= edits[0].start + edits[0].delete_count <= upto,
        edits[0].start <= edits.last().start,
        edits.len() > 1 ==> edits[0].start + edits[0].delete_count <= edits.last().start,
    decreases edits.len(),
{
    lemma_in_order_prefix(edits, upto);
    if edits.len() > 1 {
        lemma_first_start(edits.drop_last(), edits.last().start);
        assert(edits.drop_last()[0] == edits[0]);
    }
}

/// The first of several edits can be made last.
proof fn lemma_rebuilt_first<T>(items: Seq<T>, edits: Seq<Edit<T>>, upto: int)
    requires
        edits.len() > 0,
        in_order(edits, upto),
        0 <= upto <= items.len(),
    ensures
        rebuilt(items, edits, upto) == patch::spliced(
            rebuilt(items, edits.drop_first(), upto),
            edits[0],
        ),
        in_order(edits.drop_first(), upto),
    decreases edits.len(),
{
    let first = edits[0];
    let rest = edits.drop_first();
    let end = first.start + first.delete_count;
    lemma_first_start(edits, upto);
    assert forall|i: int| 0 <= i < rest.len() implies ({
        &&& 0 <= (#[trigger] rest[i]).start
        &&& 0 <= rest[i].delete_count
        &&& rest[i].start + rest[i].delete_count <= if i + 1 < rest.len() {
            rest[i + 1].start
        } else {
            upto
        }
    }) by {
        assert(rest[i] == edits[i + 1]);
        if i + 1 < rest.len() {
            assert(rest[i + 1] == edits[i + 2]);
        }
    }
    if edits.len() == 1 {
        assert(edits.drop_last() =~= Seq::empty());
        assert(rest =~= Seq::empty());
        assert(edits.last() == first);
        assert(rebuilt(items, edits.drop_last(), first.start) == items.take(first.start));
        assert(rebuilt(items, rest, upto) == items.take(upto));
        assert(rebuilt(items, edits, upto) =~= patch::spliced(items.take(upto), first)) by {
            assert(items.take(upto).take(first.start) =~= items.take(first.start));
            assert(items.take(upto).skip(end) =~= items.subrange(end, upto));
        }
    } else {
        lemma_in_order_prefix(edits, upto);
        let last = edits.last();
        lemma_rebuilt_first(items, edits.drop_last(), last.start);
        assert(edits.drop_last()[0] == first);
        assert(edits.drop_last().drop_first() =~= rest.drop_last());
        assert(rest.last() == last);
        let before = rebuilt(items, rest.drop_last(), last.start);
        let tail = last.items + items.subrange(last.start + last.delete_count, upto);
        lemma_in_order_prefix(rest, upto);
        if rest.len() > 1 {
            assert(rest.drop_last()[0] == edits[1]);
            assert(edits[0].start + edits[0].delete_count <= edits[1].start);
        }
        lemma_rebuilt_front(items, rest.drop_last(), last.start, end);
        assert(rebuilt(items, rest, upto) =~= before + tail);
        assert(rebuilt(items, edits, upto) =~= patch::spliced(before, first) + tail);
        assert(patch::spliced(before + tail, first) =~= patch::spliced(before, first) + tail);
    }
}

/// Which edits follow does not matter for what the first ones make.
proof fn lemma_patched_prefix<T>(items: Seq<T>, a: Seq<Edit<T>>, b: Seq<Edit<T>>, count: nat)
    requires
        count <= a.len(),
        count <= b.len(),
        forall|i: int| 0 <= i < count ==> a[i] == b[i],
    ensures
        patch::patched(items, a, count) == patch::patched(items, b, count),
    decreases count,
{
    if count > 0 {
        lemma_patched_prefix(items, a, b, (count - 1) as nat);
    }
}

/// Making edits one after the other, the last one first, gives what they make together.
pub proof fn lemma_patched_rebuilt<T>(items: Seq<T>, edits: Seq<Edit<T>>)
    requires
        in_order(edits, items.len() as int),
    ensures
        patch::patched(items, edits.reverse(), edits.len()) == rebuilt(
            items,
            edits,
            items.len() as int,
        ),
    decreases edits.len(),
{
    let n = items.len() as int;
    if edits.len() == 0 {
        assert(items.take(n) =~= items);
    } else {
        let rest = edits.drop_first();
        lemma_rebuilt_first(items, edits, n);
        lemma_patched_rebuilt(items, rest);
        let count = rest.len();
        lemma_patched_prefix(items, edits.reverse(), rest.reverse(), count);
        assert(edits.reverse()[count as int] == edits[0]);
    }
}

/// The patch edits for runs of edits, in the order of the sequence.
pub open spec fn run_edits<T>(runs: Seq<HunkModel>, new: Seq<T>, prefix: int) -> Seq<Edit<T>> {
    Seq::new(runs.len(), |i: int| hunk_edit(runs[i], new, prefix))
}

/// What a script's steps are to two sequences that have the first `prefix` items in common.
pub open spec fn describes<T>(
    ops: Seq<Op>,
    old: Seq<T>,
    new: Seq<T>,
    middle: Seq<T>,
    prefix: int,
    alike: spec_fn(int, int) -> bool,
) -> bool {
    let (x, y) = myers::end_of(ops);
    &&& myers::fits(ops, alike)
    &&& 0 <= prefix
    &&& prefix + x <= old.len()
    &&& prefix + y <= new.len()
    &&& y <= middle.len()
    &&& old.take(prefix) == new.take(prefix)
    &&& forall|j: int| 0 <= j < y ==> #[trigger] middle[j] == new[prefix + j]
    &&& forall|i: int, j: int|
        0 <= i < x && 0 <= j < y && #[trigger] alike(i, j) ==> old[prefix + i] == new[prefix + j]
}

proof fn lemma_end_bounds(ops: Seq<Op>)
    ensures
        myers::end_of(ops).0 >= 0,
        myers::end_of(ops).1 >= 0,
        ops.len() > 0 ==> myers::end_of(ops.drop_last()).0 <= myers::end_of(ops).0
            && myers::end_of(ops.drop_last()).1 <= myers::end_of(ops).1,
    decreases ops.len(),
{
    if ops.len() > 0 {
        lemma_end_bounds(ops.drop_last());
    }
}

/// The first runs make of the old sequence what the new one begins with.
spec fn makes<T>(
    s: Progress,
    x: int,
    y: int,
    old: Seq<T>,
    new: Seq<T>,
    middle: Seq<T>,
    prefix: int,
) -> bool {
    let done = run_edits(s.done, middle, prefix);
    &&& s.cursor == x
    &&& forall|i: int|
        0 <= i < s.done.len() ==> (#[trigger] s.done[i]).delete_count > 0
            || s.done[i].inserted.len() > 0
    &&& match s.open {
        None => in_order(done, prefix + x) && rebuilt(old, done, prefix + x) == new.take(
            prefix + y,
        ),
        Some(hunk) => {
            let edit = hunk_edit(hunk, middle, prefix);
            &&& hunk.start + hunk.delete_count == x
            &&& 0 <= hunk.start
            &&& 0 <= hunk.delete_count
            &&& hunk.delete_count > 0 || hunk.inserted.len() > 0
            &&& in_order(done, edit.start)
            &&& rebuilt(old, done, edit.start) + edit.items == new.take(prefix + y)
        },
    }
}

/// What finishing the open run makes.
proof fn lemma_finished<T>(
    s: Progress,
    x: int,
    y: int,
    old: Seq<T>,
    new: Seq<T>,
    middle: Seq<T>,
    prefix: int,
)
    requires
        makes(s, x, y, old, new, middle, prefix),
        0 <= prefix,
        0 <= x,
        prefix + x <= old.len(),
    ensures
        ({
            let edits = run_edits(finished(s), middle, prefix);
            &&& in_order(edits, prefix + x)
            &&& rebuilt(old, edits, prefix + x) == new.take(prefix + y)
            &&& forall|i: int|
                0 <= i < finished(s).len() ==> (#[trigger] finished(s)[i]).delete_count > 0
                    || finished(s)[i].inserted.len() > 0
        }),
{
    if let Some(hunk) = s.open {
        let done = run_edits(s.done, middle, prefix);
        let edits = run_edits(finished(s), middle, prefix);
        let edit = hunk_edit(hunk, middle, prefix);
        assert(edits =~= done.push(edit));
        assert(edits.drop_last() =~= done);
        assert(old.subrange(prefix + x, prefix + x) =~= Seq::empty());
        assert(rebuilt(old, edits, prefix + x) =~= new.take(prefix + y));
        assert forall|i: int| 0 <= i < edits.len() implies ({
            &&& 0 <= (#[trigger] edits[i]).start
            &&& 0 <= edits[i].delete_count
            &&& edits[i].start + edits[i].delete_count <= if i + 1 < edits.len() {
                edits[i + 1].start
            } else {
                prefix + x
            }
        }) by {
            if i < done.len() {
                assert(edits[i] == done[i]);
                if i + 1 < done.len() {
                    assert(edits[i + 1] == done[i + 1]);
                }
            }
        }
    }
}

proof fn lemma_makes<T>(
    ops: Seq<Op>,
    count: nat,
    old: Seq<T>,
    new: Seq<T>,
    middle: Seq<T>,
    prefix: int,
    alike: spec_fn(int, int) -> bool,
)
    requires
        count <= ops.len(),
        describes(ops.take(count as int), old, new, middle, prefix, alike),
    ensures
        ({
            let (x, y) = myers::end_of(ops.take(count as int));
            makes(progress(ops, count), x, y, old, new, middle, prefix)
        }),
    decreases count,
{
    let steps = ops.take(count as int);
    let (x, y) = myers::end_of(steps);
    let s = progress(ops, count);
    if count == 0 {
        assert(run_edits(s.done, middle, prefix) =~= Seq::empty());
    } else {
        let earlier = steps.drop_last();
        assert(earlier =~= ops.take(count - 1));
        lemma_end_bounds(steps);
        lemma_end_bounds(earlier);
        let (a, b) = myers::end_of(earlier);
        lemma_makes(ops, (count - 1) as nat, old, new, middle, prefix, alike);
        let before = progress(ops, (count - 1) as nat);
        assert(steps.last() == ops[count - 1]);
        match ops[count - 1] {
            Op::Keep => {
                lemma_finished(before, a, b, old, new, middle, prefix);
                let edits = run_edits(finished(before), middle, prefix);
                assert(alike(a, b));
                assert(old[prefix + a] == new[prefix + b]);
                lemma_rebuilt_one_more(old, edits, prefix + a);
                assert(new.take(prefix + b).push(new[prefix + b]) =~= new.take(prefix + b + 1));
                assert(in_order(edits, prefix + a + 1));
            },
            Op::Delete => {
                lemma_continue(before, a, b, old, new, middle, prefix);
            },
            Op::Insert(index) => {
                lemma_continue(before, a, b, old, new, middle, prefix);
                let hunk = current(before);
                let longer = HunkModel { inserted: hunk.inserted.push(index), ..hunk };
                assert(hunk_edit(longer, middle, prefix).items =~= hunk_edit(
                    hunk,
                    middle,
                    prefix,
                ).items.push(middle[index]));
                assert(middle[index] == new[prefix + index]);
                assert(new.take(prefix + b).push(new[prefix + b]) =~= new.take(prefix + b + 1));
                let done = run_edits(before.done, middle, prefix);
                let start = prefix + hunk.start;
                assert(rebuilt(old, done, start) + hunk_edit(longer, middle, prefix).items
                    =~= (rebuilt(old, done, start) + hunk_edit(hunk, middle, prefix).items).push(
                    middle[index],
                ));
            },
        }
    }
}

/// What the run that a further edit goes on with makes.
proof fn lemma_continue<T>(
    s: Progress,
    x: int,
    y: int,
    old: Seq<T>,
    new: Seq<T>,
    middle: Seq<T>,
    prefix: int,
)
    requires
        makes(s, x, y, old, new, middle, prefix),
        0 <= x,
    ensures
        ({
            let hunk = current(s);
            let done = run_edits(s.done, middle, prefix);
            let edit = hunk_edit(hunk, middle, prefix);
            &&& hunk.start + hunk.delete_count == x
            &&& 0 <= hunk.start
            &&& 0 <= hunk.delete_count
            &&& in_order(done, edit.start)
            &&& rebuilt(old, done, edit.start) + edit.items == new.take(prefix + y)
        }),
{
    if s.open is None {
        let edit = hunk_edit(current(s), middle, prefix);
        let done = run_edits(s.done, middle, prefix);
        assert(edit.items =~= Seq::empty());
        assert(rebuilt(old, done, edit.start) + edit.items =~= new.take(prefix + y));
    }
}

proof fn lemma_rebuilt_one_more<T>(items: Seq<T>, edits: Seq<Edit<T>>, upto: int)
    requires
        in_order(edits, upto),
        0 <= upto < items.len(),
    ensures
        rebuilt(items, edits, upto + 1) == rebuilt(items, edits, upto).push(items[upto]),
{
    if edits.len() == 0 {
        assert(items.take(upto + 1) =~= items.take(upto).push(items[upto]));
    } else {
        lemma_in_order_prefix(edits, upto);
        let end = edits.last().start + edits.last().delete_count;
        assert(items.subrange(end, upto + 1) =~= items.subrange(end, upto).push(items[upto]));
        assert(rebuilt(items, edits, upto + 1) =~= rebuilt(items, edits, upto).push(items[upto]));
    }
}

/// What stands behind all edits is left alone.
proof fn lemma_rebuilt_rest<T>(items: Seq<T>, edits: Seq<Edit<T>>, upto: int)
    requires
        in_order(edits, upto),
        0 <= upto <= items.len(),
    ensures
        rebuilt(items, edits, items.len() as int) == rebuilt(items, edits, upto) + items.skip(upto),
{
    let n = items.len() as int;
    if edits.len() == 0 {
        assert(items.take(n) =~= items.take(upto) + items.skip(upto));
    } else {
        lemma_in_order_prefix(edits, upto);
        let end = edits.last().start + edits.last().delete_count;
        assert(items.subrange(end, n) =~= items.subrange(end, upto) + items.skip(upto));
        assert(rebuilt(items, edits, n) =~= rebuilt(items, edits, upto) + items.skip(upto));
    }
}

/// The runs of a script, in the order of the sequence, make the new sequence of the old one.
proof fn lemma_runs_make<T>(
    ops: Seq<Op>,
    old: Seq<T>,
    new: Seq<T>,
    middle: Seq<T>,
    prefix: int,
    alike: spec_fn(int, int) -> bool,
)
    requires
        describes(ops, old, new, middle, prefix, alike),
        old.skip(prefix + myers::end_of(ops).0) == new.skip(prefix + myers::end_of(ops).1),
    ensures
        ({
            let asc = run_edits(hunks(ops), middle, prefix);
            &&& in_order(asc, old.len() as int)
            &&& rebuilt(old, asc, old.len() as int) == new
            &&& forall|i: int|
                0 <= i < asc.len() ==> (#[trigger] asc[i]).delete_count > 0 || asc[i].items.len()
                    > 0
        }),
{
    let (x, y) = myers::end_of(ops);
    lemma_end_bounds(ops);
    assert(ops.take(ops.len() as int) =~= ops);
    lemma_makes(ops, ops.len(), old, new, middle, prefix, alike);
    let s = progress(ops, ops.len());
    lemma_finished(s, x, y, old, new, middle, prefix);
    let runs = hunks(ops);
    let asc = run_edits(runs, middle, prefix);
    assert(runs == finished(s));
    lemma_rebuilt_rest(old, asc, prefix + x);
    assert(new.take(prefix + y) + new.skip(prefix + y) =~= new);
    lemma_in_order_longer(asc, prefix + x, old.len() as int);
    assert forall|i: int| 0 <= i < asc.len() implies (#[trigger] asc[i]).delete_count > 0
        || asc[i].items.len() > 0 by {
        assert(runs[i].delete_count > 0 || runs[i].inserted.len() > 0);
    }
}

proof fn lemma_in_order_longer<T>(edits: Seq<Edit<T>>, upto: int, longer: int)
    requires
        in_order(edits, upto),
        upto <= longer,
    ensures
        in_order(edits, longer),
{
    assert forall|i: int| 0 <= i < edits.len() implies ({
        &&& 0 <= (#[trigger] edits[i]).start
        &&& 0 <= edits[i].delete_count
        &&& edits[i].start + edits[i].delete_count <= if i + 1 < edits.len() {
            edits[i + 1].start
        } else {
            longer
        }
    }) by {
    }
}

/// The patch edits for a script are in order and have an effect, and make the new sequence of the
/// old one. The sequences have the first `prefix` items and what follows the scripted part in
/// common.
pub proof fn lemma_script_edits<T>(
    ops: Seq<Op>,
    old: Seq<T>,
    new: Seq<T>,
    middle: Seq<T>,
    prefix: int,
    alike: spec_fn(int, int) -> bool,
    words: PatchWording,
)
    requires
        describes(ops, old, new, middle, prefix, alike),
        old.skip(prefix + myers::end_of(ops).0) == new.skip(prefix + myers::end_of(ops).1),
        old.len() <= usize::MAX,
    ensures
        ({
            let edits = script_edits(ops, middle, prefix);
            &&& edits.len() > 0 ==> patch::edits_error(edits, old.len() as int, words) is None
            &&& patch::patched(old, edits, edits.len()) == new
        }),
{
    let asc = run_edits(hunks(ops), middle, prefix);
    let edits = script_edits(ops, middle, prefix);
    lemma_runs_make(ops, old, new, middle, prefix, alike);
    assert(edits =~= asc.reverse());
    lemma_patched_rebuilt(old, asc);
    lemma_no_edit_error(asc, edits, edits.len(), old.len() as int, words);
}

proof fn lemma_no_edit_error<T>(
    asc: Seq<Edit<T>>,
    edits: Seq<Edit<T>>,
    count: nat,
    length: int,
    words: PatchWording,
)
    requires
        edits == asc.reverse(),
        count <= edits.len(),
        in_order(asc, length),
        length <= usize::MAX,
        forall|i: int|
            0 <= i < asc.len() ==> (#[trigger] asc[i]).delete_count > 0 || asc[i].items.len() > 0,
    ensures
        patch::first_edit_error(edits, count, length, words) is None,
    decreases count,
{
    if count > 0 {
        lemma_no_edit_error(asc, edits, (count - 1) as nat, length, words);
        let at = count - 1;
        let i = asc.len() - 1 - at;
        assert(edits[at] == asc[i]);
        lemma_end_within(asc, i, length);
        if at > 0 {
            assert(edits[at - 1] == asc[i + 1]);
        }
        lemma_edit_fits(edits, at, length, words);
    }
}

/// An edit that has an effect, lies within the sequence and in front of the edit before it, is
/// accepted.
proof fn lemma_edit_fits<T>(edits: Seq<Edit<T>>, at: int, length: int, words: PatchWording)
    requires
        edits[at].delete_count > 0 || edits[at].items.len() > 0,
        edits[at].start + edits[at].delete_count <= length <= usize::MAX,
        at > 0 ==> edits[at].start + edits[at].delete_count <= edits[at - 1].start,
    ensures
        patch::edit_error(edits, at, length, words) is None,
{
}

proof fn lemma_end_within<T>(asc: Seq<Edit<T>>, i: int, length: int)
    requires
        in_order(asc, length),
        0 <= i < asc.len(),
    ensures
        asc[i].start + asc[i].delete_count <= length,
    decreases asc.len() - i,
{
    if i + 1 < asc.len() {
        lemma_end_within(asc, i + 1, length);
    }
}

} // verus!
