//! Shortest edit scripts between two sequences, by the algorithm of Myers.
//!
//! A script leads from the start of both sequences to their ends. A point `(x, y)` stands for `x`
//! items of the old and `y` items of the new sequence being dealt with; `x - y` is its diagonal.

use vstd::prelude::*;

verus! {

/// One step of an edit script.
#[derive(Debug, Clone, Copy, PartialEq, Eq, Structural)]
pub enum EditOp {
    /// Keeps the next item of the old sequence.
    Keep,
    /// Deletes the next item of the old sequence.
    Delete,
    /// Inserts the item of the new sequence at an index.
    Insert(usize),
}

/// The model of an edit script step.
pub enum Op {
    /// Keeps the next item of the old sequence.
    Keep,
    /// Deletes the next item of the old sequence.
    Delete,
    /// Inserts the item of the new sequence at an index.
    Insert(int),
}

impl View for EditOp {
    type V = Op;

    open spec fn view(&self) -> Op {
        match *self {
            EditOp::Keep => Op::Keep,
            EditOp::Delete => Op::Delete,
            EditOp::Insert(index) => Op::Insert(index as int),
        }
    }
}

/// The model of an edit script.
pub open spec fn op_views(ops: Seq<EditOp>) -> Seq<Op> {
    Seq::new(ops.len(), |i: int| ops[i]@)
}

/// What tells which items of two sequences are alike.
#[verifier::ext_equal]
pub struct Problem {
    /// The length of the old sequence.
    pub n: int,
    /// The length of the new sequence.
    pub m: int,
    /// Whether an item of the old and an item of the new sequence are alike.
    pub alike: spec_fn(int, int) -> bool,
}

impl Problem {
    /// Whether the lengths are lengths.
    pub open spec fn well_formed(self) -> bool {
        self.n >= 0 && self.m >= 0
    }

    /// How far the old sequence can be followed from a point while the items are alike.
    pub open spec fn snake(self, x: int, y: int) -> int
        decreases self.n - x,
    {
        if x < self.n && y < self.m && (self.alike)(x, y) {
            self.snake(x + 1, y + 1)
        } else {
            x
        }
    }

    /// Whether the furthest point on a diagonal after `d` edits is reached by an insertion rather
    /// than by a deletion.
    pub open spec fn inserts(self, d: nat, k: int) -> bool
        decreases d, 0nat,
    {
        k == -d || (k != d && d > 0 && self.furthest((d - 1) as nat, k - 1) < self.furthest(
            (d - 1) as nat,
            k + 1,
        ))
    }

    /// Where the furthest path on a diagonal comes out after its last edit.
    pub open spec fn landing(self, d: nat, k: int) -> int
        decreases d, 1nat,
    {
        if d == 0 {
            0
        } else if self.inserts(d, k) {
            self.furthest((d - 1) as nat, k + 1)
        } else {
            self.furthest((d - 1) as nat, k - 1) + 1
        }
    }

    /// How far the old sequence is dealt with at the furthest point on a diagonal that `d` edits
    /// reach.
    pub open spec fn furthest(self, d: nat, k: int) -> int
        decreases d, 2nat,
    {
        self.snake(self.landing(d, k), self.landing(d, k) - k)
    }

    /// Whether a diagonal can be reached by `d` edits.
    pub open spec fn on_diagonal(d: nat, k: int) -> bool {
        -d <= k <= d && (d - k) % 2 == 0
    }

    /// Whether the end of both sequences is reached on a diagonal by `d` edits.
    pub open spec fn reached(self, d: nat, k: int) -> bool {
        self.furthest(d, k) >= self.n && self.furthest(d, k) - k >= self.m
    }

    /// The least number of edits, not below `d`, that reaches the ends.
    pub open spec fn distance_from(self, d: nat) -> nat
        decreases self.n + self.m - d,
    {
        if d >= self.n + self.m || (Self::on_diagonal(d, self.n - self.m) && self.reached(
            d,
            self.n - self.m,
        )) {
            d
        } else {
            self.distance_from(d + 1)
        }
    }

    /// A run of kept items.
    pub open spec fn keeps(count: int) -> Seq<Op> {
        Seq::new(count as nat, |i: int| Op::Keep)
    }

    /// The script of the furthest path that reaches `(x, y)` by `d` edits.
    pub open spec fn script_to(self, d: nat, x: int, y: int) -> Seq<Op>
        decreases d,
    {
        if d == 0 {
            Self::keeps(x)
        } else if self.inserts(d, x - y) {
            let px = self.furthest((d - 1) as nat, x - y + 1);
            let py = px - (x - y + 1);
            self.script_to((d - 1) as nat, px, py).push(Op::Insert(py)) + Self::keeps(x - px)
        } else {
            let px = self.furthest((d - 1) as nat, x - y - 1);
            let py = px - (x - y - 1);
            self.script_to((d - 1) as nat, px, py).push(Op::Delete) + Self::keeps(x - px - 1)
        }
    }

    /// The script that leads from the old to the new sequence.
    pub open spec fn script(self) -> Seq<Op> {
        self.script_to(self.distance_from(0), self.n, self.m)
    }
}

/// The point to which a script leads.
pub open spec fn end_of(ops: Seq<Op>) -> (int, int)
    decreases ops.len(),
{
    if ops.len() == 0 {
        (0, 0)
    } else {
        let (x, y) = end_of(ops.drop_last());
        match ops.last() {
            Op::Keep => (x + 1, y + 1),
            Op::Delete => (x + 1, y),
            Op::Insert(_) => (x, y + 1),
        }
    }
}

/// Whether a script keeps only items that are alike, and inserts the items of the new sequence in
/// their order.
pub open spec fn fits(ops: Seq<Op>, alike: spec_fn(int, int) -> bool) -> bool
    decreases ops.len(),
{
    if ops.len() == 0 {
        true
    } else {
        let (x, y) = end_of(ops.drop_last());
        fits(ops.drop_last(), alike) && match ops.last() {
            Op::Keep => alike(x, y),
            Op::Delete => true,
            Op::Insert(index) => index == y,
        }
    }
}

/// What a snake runs over.
pub proof fn lemma_snake(p: Problem, x: int, y: int)
    ensures
        p.snake(x, y) >= x,
        x <= p.n ==> p.snake(x, y) <= p.n,
        y <= p.m ==> p.snake(x, y) - x + y <= p.m,
        (x >= p.n || y >= p.m) ==> p.snake(x, y) == x,
        forall|i: int| x <= i < p.snake(x, y) ==> #[trigger] (p.alike)(i, i - x + y),
    decreases p.n - x,
{
    if x < p.n && y < p.m && (p.alike)(x, y) {
        lemma_snake(p, x + 1, y + 1);
        assert forall|i: int| x <= i < p.snake(x, y) implies #[trigger] (p.alike)(i, i - x + y) by {
            if i > x {
                assert((p.alike)(i, i - (x + 1) + (y + 1)));
            }
        }
    }
}

/// Where the furthest points lie.
proof fn lemma_furthest_bounds(p: Problem, d: nat, k: int)
    requires
        p.well_formed(),
        Problem::on_diagonal(d, k),
    ensures
        0 <= p.landing(d, k) <= p.furthest(d, k) <= p.n + d,
        0 <= p.landing(d, k) - k <= p.furthest(d, k) - k <= p.m + d,
    decreases d,
{
    let x = p.landing(d, k);
    if d > 0 {
        if p.inserts(d, k) {
            lemma_furthest_bounds(p, (d - 1) as nat, k + 1);
        } else {
            lemma_furthest_bounds(p, (d - 1) as nat, k - 1);
        }
    }
    lemma_snake(p, x, x - k);
    if x > p.n {
        assert(p.snake(x, x - k) == x);
    }
}

/// The furthest point after one more edit is at least as far as each edit gets.
proof fn lemma_furthest_grows(p: Problem, d: nat, k: int)
    requires
        p.well_formed(),
        Problem::on_diagonal(d, k),
    ensures
        p.furthest(d + 1, k + 1) >= p.furthest(d, k) + 1,
        p.furthest(d + 1, k - 1) >= p.furthest(d, k),
{
    let e = d + 1;
    // by a deletion
    lemma_snake(p, p.landing(e, k + 1), p.landing(e, k + 1) - (k + 1));
    if p.inserts(e, k + 1) {
        assert(k + 1 != -e);
        assert(p.furthest(d, k) < p.furthest(d, k + 2));
    }
    // by an insertion
    lemma_snake(p, p.landing(e, k - 1), p.landing(e, k - 1) - (k - 1));
    if !p.inserts(e, k - 1) {
        assert(k - 1 != e);
        assert(k - 1 != -e);
    }
}

/// Without a single item that is alike, `d` edits on diagonal `k` deal with `(d + k) / 2` items.
proof fn lemma_furthest_minimum(p: Problem, d: nat, k: int)
    requires
        p.well_formed(),
        Problem::on_diagonal(d, k),
    ensures
        2 * p.furthest(d, k) >= d + k,
    decreases d,
{
    lemma_snake(p, p.landing(d, k), p.landing(d, k) - k);
    if d > 0 {
        if k > -d {
            lemma_furthest_minimum(p, (d - 1) as nat, k - 1);
            lemma_furthest_grows(p, (d - 1) as nat, k - 1);
        } else {
            lemma_furthest_minimum(p, (d - 1) as nat, k + 1);
            lemma_furthest_grows(p, (d - 1) as nat, k + 1);
        }
    }
}

/// A furthest point beyond the end of the new sequence comes from one at its end.
proof fn lemma_beyond_new(p: Problem, d: nat, k: int)
    requires
        p.well_formed(),
        Problem::on_diagonal(d, k),
        p.furthest(d, k) - k > p.m,
    ensures
        ({
            let over = p.furthest(d, k) - k - p.m;
            &&& over <= d
            &&& Problem::on_diagonal((d - over) as nat, k + over)
            &&& p.furthest((d - over) as nat, k + over) >= p.furthest(d, k)
        }),
    decreases d,
{
    let x0 = p.landing(d, k);
    lemma_snake(p, x0, x0 - k);
    let x = p.furthest(d, k);
    let over = x - k - p.m;
    assert(x0 - k > p.m);
    assert(x == x0);
    if d == 0 {
        assert(k == 0);
    } else {
        let e = (d - 1) as nat;
        if p.inserts(d, k) {
            assert(p.furthest(e, k + 1) == x);
            if over > 1 {
                lemma_beyond_new(p, e, k + 1);
            }
        } else {
            assert(p.furthest(e, k - 1) == x - 1);
            lemma_beyond_new(p, e, k - 1);
            lemma_furthest_grows(p, (e - over) as nat, k - 1 + over);
        }
    }
}

/// A furthest point beyond the end of the old sequence comes from one at its end.
proof fn lemma_beyond_old(p: Problem, d: nat, k: int)
    requires
        p.well_formed(),
        Problem::on_diagonal(d, k),
        p.furthest(d, k) > p.n,
    ensures
        ({
            let over = p.furthest(d, k) - p.n;
            &&& over <= d
            &&& Problem::on_diagonal((d - over) as nat, k - over)
            &&& p.furthest((d - over) as nat, k - over) >= p.n
        }),
    decreases d,
{
    let x0 = p.landing(d, k);
    lemma_snake(p, x0, x0 - k);
    let x = p.furthest(d, k);
    let over = x - p.n;
    assert(x0 > p.n);
    assert(x == x0);
    if d == 0 {
        assert(x0 == 0);
    } else {
        let e = (d - 1) as nat;
        if p.inserts(d, k) {
            assert(p.furthest(e, k + 1) == x);
            lemma_beyond_old(p, e, k + 1);
            lemma_furthest_grows(p, (e - over) as nat, k + 1 - over);
        } else {
            assert(p.furthest(e, k - 1) == x - 1);
            if over > 1 {
                lemma_beyond_old(p, e, k - 1);
            }
        }
    }
}

/// The first time that the ends are reached, they are reached exactly.
proof fn lemma_first_reached(p: Problem, d: nat, k: int)
    requires
        p.well_formed(),
        Problem::on_diagonal(d, k),
        p.reached(d, k),
        forall|e: nat, j: int| e < d && Problem::on_diagonal(e, j) ==> !#[trigger] p.reached(e, j),
    ensures
        k == p.n - p.m,
        p.furthest(d, k) == p.n,
{
    let x = p.furthest(d, k);
    if x - k > p.m {
        lemma_beyond_new(p, d, k);
        let over = x - k - p.m;
        assert(p.reached((d - over) as nat, k + over));
    }
    if x > p.n {
        lemma_beyond_old(p, d, k);
        let over = x - p.n;
        assert(p.reached((d - over) as nat, k - over));
    }
}

/// The ends are reached by as many edits as there are items.
proof fn lemma_reached_at_last(p: Problem)
    requires
        p.well_formed(),
    ensures
        Problem::on_diagonal((p.n + p.m) as nat, p.n - p.m),
        p.reached((p.n + p.m) as nat, p.n - p.m),
{
    lemma_furthest_minimum(p, (p.n + p.m) as nat, p.n - p.m);
}

/// The distance is the number of edits after which the ends are first reached.
proof fn lemma_distance(p: Problem, d: nat, from: nat)
    requires
        p.well_formed(),
        from <= d <= p.n + p.m,
        Problem::on_diagonal(d, p.n - p.m),
        p.reached(d, p.n - p.m),
        forall|e: nat, j: int| e < d && Problem::on_diagonal(e, j) ==> !#[trigger] p.reached(e, j),
    ensures
        p.distance_from(from) == d,
    decreases d - from,
{
    if from < d {
        assert(Problem::on_diagonal(from, p.n - p.m) ==> !p.reached(from, p.n - p.m));
        lemma_distance(p, d, from + 1);
    }
}

/// Items that can be told apart.
pub trait Token {
    /// Whether two items are alike.
    spec fn alike(&self, other: &Self) -> bool;

    /// Tells whether two items are alike.
    fn is_alike(&self, other: &Self) -> (alike: bool)
        ensures
            alike == self.alike(other),
    ;
}

impl Token for char {
    open spec fn alike(&self, other: &Self) -> bool {
        *self == *other
    }

    fn is_alike(&self, other: &Self) -> (alike: bool) {
        *self == *other
    }
}

/// Which items of two sequences are alike.
pub open spec fn problem_of<T: Token>(old: Seq<T>, new: Seq<T>) -> Problem {
    Problem {
        n: old.len() as int,
        m: new.len() as int,
        alike: |i: int, j: int|
            0 <= i < old.len() && 0 <= j < new.len() && old[i].alike(&new[j]),
    }
}

/// Whether a row holds the furthest points on the diagonals that `d` edits reach.
spec fn row_holds(p: Problem, row: Seq<isize>, offset: int, d: nat, below: int) -> bool {
    forall|j: int|
        Problem::on_diagonal(d, j) && j < below ==> #[trigger] row[offset + j] == p.furthest(d, j)
}

/// Follows items that are alike from a point.
fn follow<T: Token>(old: &[T], new: &[T], x: isize, k: isize) -> (end: isize)
    requires
        0 <= x,
        0 <= x - k <= isize::MAX,
        old@.len() <= isize::MAX,
        new@.len() <= isize::MAX,
    ensures
        end == problem_of(old@, new@).snake(x as int, x - k),
{
    let ghost p = problem_of(old@, new@);
    let mut end: isize = x;
    let mut y: isize = x - k;
    while end < old.len() as isize && y < new.len() as isize && old[end as usize].is_alike(
        &new[y as usize],
    )
        invariant
            p == problem_of(old@, new@),
            0 <= end,
            0 <= y,
            y == end - k,
            old@.len() <= isize::MAX,
            new@.len() <= isize::MAX,
            p.snake(end as int, y as int) == p.snake(x as int, x - k),
        decreases old@.len() - end,
    {
        end = end + 1;
        y = y + 1;
    }
    end
}

/// Entering a furthest point into a row keeps what the row holds.
proof fn lemma_row_set(p: Problem, row: Seq<isize>, offset: int, d: nat, k: int, x: isize)
    requires
        Problem::on_diagonal(d, k),
        d < offset,
        row.len() == 2 * offset + 1,
        row_holds(p, row, offset, d, k),
        d > 0 ==> row_holds(p, row, offset, (d - 1) as nat, d as int),
        x == p.furthest(d, k),
    ensures
        row_holds(p, row.update(offset + k, x), offset, d, k + 2),
        d > 0 ==> row_holds(p, row.update(offset + k, x), offset, (d - 1) as nat, d as int),
{
    let next = row.update(offset + k, x);
    assert forall|j: int| Problem::on_diagonal(d, j) && j < k + 2 implies #[trigger] next[offset
        + j] == p.furthest(d, j) by {
        if j < k {
            assert(row[offset + j] == p.furthest(d, j));
        } else {
            assert(j == k);
        }
    }
    if d > 0 {
        assert forall|j: int| Problem::on_diagonal((d - 1) as nat, j) && j < d implies
            #[trigger] next[offset + j] == p.furthest((d - 1) as nat, j) by {
            assert(row[offset + j] == p.furthest((d - 1) as nat, j));
            assert(j != k);
        }
    }
}

/// Finds the shortest script that leads from one sequence to another.
#[verifier::rlimit(40)]
pub fn myers_diff<T: Token>(old: &[T], new: &[T]) -> (ops: Vec<EditOp>)
    requires
        2 * (old@.len() + new@.len()) + 3 <= isize::MAX,
    ensures
        op_views(ops@) == problem_of(old@, new@).script(),
{
    let ghost p = problem_of(old@, new@);
    let n: usize = old.len();
    let m: usize = new.len();
    let max: usize = n + m;
    let offset: usize = max + 1;
    let mut trace: Vec<Vec<isize>> = Vec::new();
    let mut v: Vec<isize> = vec![-1isize;2 * max + 3];
    v.set(offset + 1, 0);
    let mut d: usize = 0;
    while d <= max
        invariant
            n == old@.len(),
            m == new@.len(),
            max == n + m,
            offset == max + 1,
            2 * max + 3 <= isize::MAX,
            p == problem_of(old@, new@),
            0 <= d <= max + 1,
            v@.len() == 2 * max + 3,
            d == 0 ==> v@[offset + 1] == 0,
            d > 0 ==> row_holds(p, v@, offset as int, (d - 1) as nat, d as int),
            trace@.len() == d,
            forall|i: int|
                0 <= i < d ==> (#[trigger] trace@[i])@.len() == 2 * max + 3 && row_holds(
                    p,
                    trace@[i]@,
                    offset as int,
                    i as nat,
                    i + 1,
                ),
            forall|e: nat, j: int|
                e < d && Problem::on_diagonal(e, j) ==> !#[trigger] p.reached(e, j),
        decreases max + 1 - d,
    {
        let ghost before = v@;
        let mut k: isize = -(d as isize);
        while k <= d as isize
            invariant
                n == old@.len(),
                m == new@.len(),
                max == n + m,
                offset == max + 1,
                2 * max + 3 <= isize::MAX,
                p == problem_of(old@, new@),
                d <= max,
                -d <= k <= d + 2,
                (d - k) % 2 == 0,
                v@.len() == 2 * max + 3,
                d == 0 && k == 0 ==> v@[offset + 1] == 0,
                d > 0 ==> row_holds(p, v@, offset as int, (d - 1) as nat, d as int),
                row_holds(p, v@, offset as int, d as nat, k as int),
                trace@.len() == d,
                forall|i: int|
                    0 <= i < d ==> (#[trigger] trace@[i])@.len() == 2 * max + 3 && row_holds(
                        p,
                        trace@[i]@,
                        offset as int,
                        i as nat,
                        i + 1,
                    ),
                forall|e: nat, j: int|
                    e < d && Problem::on_diagonal(e, j) ==> !#[trigger] p.reached(e, j),
                forall|j: int|
                    Problem::on_diagonal(d as nat, j) && j < k ==> !#[trigger] p.reached(
                        d as nat,
                        j,
                    ),
            decreases d + 2 - k,
        {
            let index: usize = (offset as isize + k) as usize;
            proof {
                lemma_furthest_bounds(p, d as nat, k as int);
                if d > 0 {
                    let e = (d - 1) as nat;
                    if k > -d {
                        lemma_furthest_bounds(p, e, k - 1);
                        assert(v@[offset + (k - 1)] == p.furthest(e, k - 1));
                    }
                    if k < d {
                        lemma_furthest_bounds(p, e, k + 1);
                        assert(v@[offset + (k + 1)] == p.furthest(e, k + 1));
                    }
                }
            }
            let landing: isize = if k == -(d as isize) || (k != d as isize && v[index - 1] < v[index
                + 1]) {
                v[index + 1]
            } else {
                v[index - 1] + 1
            };
            assert(landing == p.landing(d as nat, k as int));
            let x: isize = follow(old, new, landing, k);
            let ghost earlier = v@;
            v.set(index, x);
            proof {
                lemma_row_set(p, earlier, offset as int, d as nat, k as int, x);
            }
            if x >= n as isize && x - k >= m as isize {
                proof {
                    lemma_first_reached(p, d as nat, k as int);
                    lemma_distance(p, d as nat, 0);
                }
                return backtrack(&trace, d, n, m, offset, Ghost(p));
            }
            k = k + 2;
        }
        proof {
            assert forall|j: int| Problem::on_diagonal(d as nat, j) && j < d + 1 implies
                #[trigger] v@[offset + j] == p.furthest(d as nat, j) by {
                assert(j < k);
            }
            assert forall|e: nat, j: int| e < d + 1 && Problem::on_diagonal(e, j) implies
                !#[trigger] p.reached(e, j) by {
                if e == d {
                    assert(j < k);
                }
            }
        }
        let row: Vec<isize> = v.clone();
        assert(row@ =~= v@);
        trace.push(row);
        d = d + 1;
    }
    proof {
        lemma_reached_at_last(p);
        assert(false);
    }
    Vec::new()
}

/// Puts kept items in front of a script that is held in reverse.
fn push_keeps(reversed: &mut Vec<EditOp>, count: usize)
    ensures
        op_views(final(reversed)@).reverse() == Problem::keeps(count as int) + op_views(
            old(reversed)@,
        ).reverse(),
{
    let ghost rest = op_views(reversed@).reverse();
    let mut i: usize = 0;
    assert(Problem::keeps(0) + rest =~= rest);
    while i < count
        invariant
            i <= count,
            op_views(reversed@).reverse() == Problem::keeps(i as int) + rest,
        decreases count - i,
    {
        let ghost before = op_views(reversed@).reverse();
        reversed.push(EditOp::Keep);
        i = i + 1;
        assert(op_views(reversed@).reverse() =~= seq![Op::Keep] + before);
        assert(op_views(reversed@).reverse() =~= Problem::keeps(i as int) + rest);
    }
}

proof fn lemma_prepend(reversed: Seq<EditOp>, op: EditOp)
    ensures
        op_views(reversed.push(op)).reverse() == seq![op@] + op_views(reversed).reverse(),
{
    assert(op_views(reversed.push(op)).reverse() =~= seq![op@] + op_views(reversed).reverse());
}

proof fn lemma_regroup(before: Seq<Op>, op: Op, keeps: Seq<Op>, tail: Seq<Op>)
    ensures
        (before.push(op) + keeps) + tail == before + (seq![op] + (keeps + tail)),
{
    assert((before.push(op) + keeps) + tail =~= before + (seq![op] + (keeps + tail)));
}

proof fn lemma_script_step(p: Problem, d: nat, x: int, y: int)
    requires
        d > 0,
    ensures
        ({
            let k = x - y;
            let e = (d - 1) as nat;
            let px = if p.inserts(d, k) {
                p.furthest(e, k + 1)
            } else {
                p.furthest(e, k - 1)
            };
            let py = if p.inserts(d, k) {
                px - (k + 1)
            } else {
                px - (k - 1)
            };
            let op = if p.inserts(d, k) {
                Op::Insert(py)
            } else {
                Op::Delete
            };
            p.script_to(d, x, y) == p.script_to(e, px, py).push(op) + Problem::keeps(
                x - p.landing(d, k),
            )
        }),
{
}

/// Follows the furthest path back over its last edit, given the furthest points before that edit.
fn step_back(
    previous: &Vec<isize>,
    d: usize,
    x: isize,
    y: isize,
    offset: usize,
    reversed: &mut Vec<EditOp>,
    Ghost(p): Ghost<Problem>,
) -> (point: (isize, isize))
    requires
        p.well_formed(),
        0 < d < offset,
        2 * offset + 1 <= isize::MAX,
        offset == p.n + p.m + 1,
        previous@.len() == 2 * offset + 1,
        row_holds(p, previous@, offset as int, (d - 1) as nat, d as int),
        Problem::on_diagonal(d as nat, x - y),
        p.furthest(d as nat, x - y) == x,
        0 <= x <= p.n,
        0 <= y <= p.m,
    ensures
        0 <= point.0 <= x,
        0 <= point.1 <= y,
        Problem::on_diagonal((d - 1) as nat, point.0 - point.1),
        p.furthest((d - 1) as nat, point.0 - point.1) == point.0,
        p.script_to((d - 1) as nat, point.0 as int, point.1 as int) + op_views(
            final(reversed)@,
        ).reverse() == p.script_to(d as nat, x as int, y as int) + op_views(
            old(reversed)@,
        ).reverse(),
{
    let k: isize = x - y;
    let ghost e = (d - 1) as nat;
    proof {
        lemma_furthest_bounds(p, d as nat, k as int);
        if k > -d {
            lemma_furthest_bounds(p, e, k - 1);
            assert(previous@[offset + (k - 1)] == p.furthest(e, k - 1));
        }
        if k < d {
            lemma_furthest_bounds(p, e, k + 1);
            assert(previous@[offset + (k + 1)] == p.furthest(e, k + 1));
        }
    }
    let index: usize = (offset as isize + k) as usize;
    let inserts: bool = k == -(d as isize) || (k != d as isize && previous[index - 1]
        < previous[index + 1]);
    assert(inserts == p.inserts(d as nat, k as int));
    let previous_x: isize = if inserts {
        previous[index + 1]
    } else {
        previous[index - 1]
    };
    let previous_y: isize = if inserts {
        previous_x - (k + 1)
    } else {
        previous_x - (k - 1)
    };
    let landing: isize = if inserts {
        previous_x
    } else {
        previous_x + 1
    };
    assert(landing == p.landing(d as nat, k as int));
    push_keeps(reversed, (x - landing) as usize);
    let op: EditOp = if inserts {
        EditOp::Insert(previous_y as usize)
    } else {
        EditOp::Delete
    };
    proof {
        lemma_script_step(p, d as nat, x as int, y as int);
        lemma_prepend(reversed@, op);
        lemma_regroup(
            p.script_to(e, previous_x as int, previous_y as int),
            op@,
            Problem::keeps(x - landing),
            op_views(old(reversed)@).reverse(),
        );
    }
    reversed.push(op);
    (previous_x, previous_y)
}

/// Follows the furthest path back from the ends to the start.
fn backtrack(
    trace: &Vec<Vec<isize>>,
    edit_distance: usize,
    n: usize,
    m: usize,
    offset: usize,
    Ghost(p): Ghost<Problem>,
) -> (ops: Vec<EditOp>)
    requires
        p.n == n,
        p.m == m,
        offset == n + m + 1,
        2 * (n + m) + 3 <= isize::MAX,
        edit_distance <= n + m,
        trace@.len() >= edit_distance,
        forall|i: int|
            0 <= i < edit_distance ==> (#[trigger] trace@[i])@.len() == 2 * (n + m) + 3
                && row_holds(p, trace@[i]@, offset as int, i as nat, i + 1),
        Problem::on_diagonal(edit_distance as nat, n - m),
        p.furthest(edit_distance as nat, n - m) == n,
    ensures
        op_views(ops@) == p.script_to(edit_distance as nat, n as int, m as int),
{
    let mut x: isize = n as isize;
    let mut y: isize = m as isize;
    let mut reversed: Vec<EditOp> = Vec::new();
    let mut d: usize = edit_distance;
    let ghost whole = p.script_to(edit_distance as nat, n as int, m as int);
    assert(whole =~= whole + op_views(reversed@).reverse());
    while d > 0
        invariant
            p.n == n,
            p.m == m,
            offset == n + m + 1,
            2 * (n + m) + 3 <= isize::MAX,
            d <= edit_distance <= n + m,
            trace@.len() >= edit_distance,
            forall|i: int|
                0 <= i < edit_distance ==> (#[trigger] trace@[i])@.len() == 2 * (n + m) + 3
                    && row_holds(p, trace@[i]@, offset as int, i as nat, i + 1),
            Problem::on_diagonal(d as nat, x - y),
            p.furthest(d as nat, x - y) == x,
            0 <= x <= n,
            0 <= y <= m,
            whole == p.script_to(d as nat, x as int, y as int) + op_views(reversed@).reverse(),
        decreases d,
    {
        let (previous_x, previous_y) = step_back(&trace[d - 1], d, x, y, offset, &mut reversed, Ghost(p));
        x = previous_x;
        y = previous_y;
        d = d - 1;
    }
    assert(x == y);
    let ghost tail = op_views(reversed@).reverse();
    push_keeps(&mut reversed, x as usize);
    assert(whole =~= op_views(reversed@).reverse());
    let mut ops: Vec<EditOp> = Vec::new();
    let mut i: usize = reversed.len();
    while i > 0
        invariant
            i <= reversed@.len(),
            ops@ == reversed@.skip(i as int).reverse(),
        decreases i,
    {
        i = i - 1;
        ops.push(reversed[i]);
        assert(ops@ =~= reversed@.skip(i as int).reverse());
    }
    proof {
        assert(reversed@.skip(0) =~= reversed@);
        assert(op_views(ops@) =~= op_views(reversed@).reverse());
        assert(whole =~= op_views(ops@));
    }
    ops
}

/// The number of edits of a script.
pub open spec fn edits_in(ops: Seq<Op>) -> nat
    decreases ops.len(),
{
    if ops.len() == 0 {
        0
    } else if ops.last() is Keep {
        edits_in(ops.drop_last())
    } else {
        edits_in(ops.drop_last()) + 1
    }
}

proof fn lemma_push(ops: Seq<Op>, op: Op)
    ensures
        ops.push(op).drop_last() == ops,
        ops.push(op).last() == op,
{
    assert(ops.push(op).drop_last() =~= ops);
}

/// What keeping a run of items adds to a script.
proof fn lemma_keeps(ops: Seq<Op>, count: int, alike: spec_fn(int, int) -> bool)
    requires
        count >= 0,
        fits(ops, alike),
        forall|i: int|
            0 <= i < count ==> #[trigger] alike(end_of(ops).0 + i, end_of(ops).1 + i),
    ensures
        fits(ops + Problem::keeps(count), alike),
        end_of(ops + Problem::keeps(count)) == (end_of(ops).0 + count, end_of(ops).1 + count),
        edits_in(ops + Problem::keeps(count)) == edits_in(ops),
    decreases count,
{
    let whole = ops + Problem::keeps(count);
    if count == 0 {
        assert(whole =~= ops);
    } else {
        lemma_keeps(ops, count - 1, alike);
        assert(whole.drop_last() =~= ops + Problem::keeps(count - 1));
        assert(whole.last() is Keep);
        assert(alike(end_of(ops).0 + (count - 1), end_of(ops).1 + (count - 1)));
    }
}

proof fn lemma_script_to(p: Problem, d: nat, x: int, y: int)
    requires
        p.well_formed(),
        Problem::on_diagonal(d, x - y),
        x == p.furthest(d, x - y),
    ensures
        fits(p.script_to(d, x, y), p.alike),
        end_of(p.script_to(d, x, y)) == (x, y),
        edits_in(p.script_to(d, x, y)) == d,
    decreases d,
{
    let k = x - y;
    let landing = p.landing(d, k);
    lemma_furthest_bounds(p, d, k);
    lemma_snake(p, landing, landing - k);
    let base = if d == 0 {
        Seq::<Op>::empty()
    } else if p.inserts(d, k) {
        let px = p.furthest((d - 1) as nat, k + 1);
        let py = px - (k + 1);
        lemma_script_to(p, (d - 1) as nat, px, py);
        lemma_push(p.script_to((d - 1) as nat, px, py), Op::Insert(py));
        p.script_to((d - 1) as nat, px, py).push(Op::Insert(py))
    } else {
        let px = p.furthest((d - 1) as nat, k - 1);
        let py = px - (k - 1);
        lemma_script_to(p, (d - 1) as nat, px, py);
        lemma_push(p.script_to((d - 1) as nat, px, py), Op::Delete);
        p.script_to((d - 1) as nat, px, py).push(Op::Delete)
    };
    assert(end_of(base) == (landing, landing - k));
    assert forall|i: int| 0 <= i < x - landing implies #[trigger] (p.alike)(
        end_of(base).0 + i,
        end_of(base).1 + i,
    ) by {
        assert((p.alike)(landing + i, (landing + i) - landing + (landing - k)));
    }
    lemma_keeps(base, x - landing, p.alike);
    assert(p.script_to(d, x, y) =~= base + Problem::keeps(x - landing));
}

/// The ends are reached by some number of edits.
proof fn lemma_distance_reached(p: Problem, from: nat)
    requires
        p.well_formed(),
        from <= p.n + p.m,
    ensures
        from <= p.distance_from(from) <= p.n + p.m,
        Problem::on_diagonal(p.distance_from(from), p.n - p.m),
        p.reached(p.distance_from(from), p.n - p.m),
        forall|e: nat|
            from <= e < p.distance_from(from) && Problem::on_diagonal(e, p.n - p.m)
                ==> !#[trigger] p.reached(e, p.n - p.m),
    decreases p.n + p.m - from,
{
    if from == p.n + p.m {
        lemma_reached_at_last(p);
    } else if !(Problem::on_diagonal(from, p.n - p.m) && p.reached(from, p.n - p.m)) {
        lemma_distance_reached(p, from + 1);
    }
}

/// The number of edits is the least for which the ends are reached on any diagonal.
proof fn lemma_distance_exact(p: Problem)
    requires
        p.well_formed(),
    ensures
        p.furthest(p.distance_from(0), p.n - p.m) == p.n,
        Problem::on_diagonal(p.distance_from(0), p.n - p.m),
{
    lemma_distance_reached(p, 0);
    let d = p.distance_from(0);
    lemma_no_earlier(p, d, d);
    lemma_first_reached(p, d, p.n - p.m);
}

proof fn lemma_no_earlier(p: Problem, d: nat, below: nat)
    requires
        p.well_formed(),
        below <= d,
        forall|e: nat|
            e < d && Problem::on_diagonal(e, p.n - p.m) ==> !#[trigger] p.reached(e, p.n - p.m),
    ensures
        forall|e: nat, j: int| e < below && Problem::on_diagonal(e, j) ==> !#[trigger] p.reached(
            e,
            j,
        ),
    decreases below,
{
    if below > 0 {
        let e = (below - 1) as nat;
        lemma_no_earlier(p, d, e);
        assert forall|j: int| Problem::on_diagonal(e, j) implies !#[trigger] p.reached(e, j) by {
            if p.reached(e, j) {
                lemma_first_reached(p, e, j);
            }
        }
        assert forall|f: nat, j: int| f < below && Problem::on_diagonal(f, j) implies
            !#[trigger] p.reached(f, j) by {
            if f == e {
                assert(!p.reached(e, j));
            }
        }
    }
}

/// The script leads from the old sequence to the new one: it keeps only items that are alike, and
/// inserts the items of the new sequence in their order.
pub proof fn law_script_leads_to_the_end(p: Problem)
    requires
        p.well_formed(),
    ensures
        fits(p.script(), p.alike),
        end_of(p.script()) == (p.n, p.m),
{
    lemma_distance_exact(p);
    lemma_script_to(p, p.distance_from(0), p.n, p.m);
}

/// A snake goes on as long as the items are alike.
proof fn lemma_snake_stops(p: Problem, x: int, y: int)
    ensures
        ({
            let end = p.snake(x, y);
            !(end < p.n && end - x + y < p.m && (p.alike)(end, end - x + y))
        }),
    decreases p.n - x,
{
    if x < p.n && y < p.m && (p.alike)(x, y) {
        lemma_snake_stops(p, x + 1, y + 1);
    }
}

/// No script gets further by the same number of edits.
proof fn lemma_furthest_is_furthest(p: Problem, ops: Seq<Op>)
    requires
        p.well_formed(),
        fits(ops, p.alike),
        end_of(ops).0 <= p.n,
        end_of(ops).1 <= p.m,
    ensures
        Problem::on_diagonal(edits_in(ops), end_of(ops).0 - end_of(ops).1),
        p.furthest(edits_in(ops), end_of(ops).0 - end_of(ops).1) >= end_of(ops).0,
        end_of(ops).0 >= 0,
        end_of(ops).1 >= 0,
    decreases ops.len(),
{
    if ops.len() == 0 {
        lemma_furthest_bounds(p, 0, 0);
    } else {
        let before = ops.drop_last();
        lemma_furthest_is_furthest(p, before);
        let d = edits_in(before);
        let (x, y) = end_of(before);
        match ops.last() {
            Op::Keep => {
                let landing = p.landing(d, x - y);
                lemma_snake_stops(p, landing, landing - (x - y));
            },
            _ => {
                lemma_furthest_grows(p, d, x - y);
            },
        }
    }
}

/// No script that leads to the end has fewer edits.
pub proof fn law_script_is_shortest(p: Problem, other: Seq<Op>)
    requires
        p.well_formed(),
        fits(other, p.alike),
        end_of(other) == (p.n, p.m),
    ensures
        edits_in(p.script()) <= edits_in(other),
{
    lemma_distance_exact(p);
    lemma_script_to(p, p.distance_from(0), p.n, p.m);
    lemma_furthest_is_furthest(p, other);
    lemma_distance_reached(p, 0);
    let d = edits_in(other);
    assert(p.reached(d, p.n - p.m));
}

} // verus!
