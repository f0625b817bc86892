//! What two sequences have in common at their ends.

use vstd::prelude::*;

use crate::producer::myers;
use crate::producer::myers::{Problem, Token};

verus! {

/// How many items from the front on are alike.
pub open spec fn prefix_len(p: Problem) -> int {
    p.snake(0, 0)
}

/// How many items from the back on are alike, `count` of which are known, and at most `limit`.
pub open spec fn suffix_from(p: Problem, count: int, limit: int) -> int
    decreases limit - count,
{
    if count < limit && (p.alike)(p.n - 1 - count, p.m - 1 - count) {
        suffix_from(p, count + 1, limit)
    } else {
        count
    }
}

/// How many items from the back on are alike, apart from the first `prefix` ones.
pub open spec fn suffix_beside(p: Problem, prefix: int) -> int {
    let shorter = if p.n < p.m {
        p.n
    } else {
        p.m
    };
    suffix_from(p, 0, shorter - prefix)
}

/// How many items from the back on are alike, apart from those that are so from the front on.
pub open spec fn suffix_len(p: Problem) -> int {
    suffix_beside(p, prefix_len(p))
}

/// What is left of a sequence between its part of the common prefix and of the common suffix.
pub open spec fn middle<T>(items: Seq<T>, p: Problem) -> Seq<T> {
    items.subrange(prefix_len(p), items.len() - suffix_len(p))
}

proof fn lemma_suffix_from(p: Problem, count: int, limit: int)
    requires
        0 <= count <= limit,
    ensures
        count <= suffix_from(p, count, limit) <= limit,
        forall|i: int|
            count <= i < suffix_from(p, count, limit) ==> #[trigger] (p.alike)(
                p.n - 1 - i,
                p.m - 1 - i,
            ),
        ({
            let len = suffix_from(p, count, limit);
            len == limit || !(p.alike)(p.n - 1 - len, p.m - 1 - len)
        }),
    decreases limit - count,
{
    if count < limit && (p.alike)(p.n - 1 - count, p.m - 1 - count) {
        lemma_suffix_from(p, count + 1, limit);
    }
}

/// The common suffix beside a prefix is the longest one that does not overlap the prefix.
pub proof fn law_suffix_is_longest(p: Problem, prefix: int, len: int)
    requires
        0 <= prefix <= p.n,
        prefix <= p.m,
        0 <= len,
        prefix + len <= p.n,
        prefix + len <= p.m,
    ensures
        0 <= suffix_beside(p, prefix) <= p.n - prefix,
        suffix_beside(p, prefix) <= p.m - prefix,
        len <= suffix_beside(p, prefix) <==> forall|i: int|
            0 <= i < len ==> #[trigger] (p.alike)(p.n - 1 - i, p.m - 1 - i),
{
    let shorter = if p.n < p.m {
        p.n
    } else {
        p.m
    };
    lemma_suffix_from(p, 0, shorter - prefix);
    let longest = suffix_beside(p, prefix);
    if len > longest {
        assert(!(p.alike)(p.n - 1 - longest, p.m - 1 - longest));
    }
}

/// The common prefix and suffix do not overlap.
pub proof fn lemma_ends(p: Problem)
    requires
        p.well_formed(),
    ensures
        0 <= prefix_len(p) <= p.n,
        prefix_len(p) <= p.m,
        0 <= suffix_len(p),
        prefix_len(p) + suffix_len(p) <= p.n,
        prefix_len(p) + suffix_len(p) <= p.m,
        forall|i: int| 0 <= i < prefix_len(p) ==> #[trigger] (p.alike)(i, i),
        forall|i: int|
            0 <= i < suffix_len(p) ==> #[trigger] (p.alike)(p.n - 1 - i, p.m - 1 - i),
{
    myers::lemma_snake(p, 0, 0);
    assert forall|i: int| 0 <= i < prefix_len(p) implies #[trigger] (p.alike)(i, i) by {
        assert((p.alike)(i, i - 0 + 0));
    }
    let shorter = if p.n < p.m {
        p.n
    } else {
        p.m
    };
    lemma_suffix_from(p, 0, shorter - prefix_len(p));
}

/// Counts the items from the front on that are alike.
pub fn common_prefix_len<T: Token>(old: &[T], new: &[T]) -> (len: usize)
    ensures
        len == prefix_len(myers::problem_of(old@, new@)),
        len <= old@.len(),
        len <= new@.len(),
{
    let ghost p = myers::problem_of(old@, new@);
    let mut len: usize = 0;
    while len < old.len() && len < new.len() && old[len].is_alike(&new[len])
        invariant
            p == myers::problem_of(old@, new@),
            len <= old@.len(),
            len <= new@.len(),
            p.snake(len as int, len as int) == p.snake(0, 0),
        decreases old@.len() - len,
    {
        len = len + 1;
    }
    len
}

/// Counts the items from the back on that are alike, apart from the first `prefix` ones.
pub fn common_suffix_len<T: Token>(old: &[T], new: &[T], prefix: usize) -> (len: usize)
    requires
        prefix <= old@.len(),
        prefix <= new@.len(),
    ensures
        len == suffix_beside(myers::problem_of(old@, new@), prefix as int),
        prefix + len <= old@.len(),
        prefix + len <= new@.len(),
{
    let ghost p = myers::problem_of(old@, new@);
    let n: usize = old.len();
    let m: usize = new.len();
    let limit: usize = if n < m {
        n - prefix
    } else {
        m - prefix
    };
    let mut len: usize = 0;
    while len < limit && old[n - 1 - len].is_alike(&new[m - 1 - len])
        invariant
            p == myers::problem_of(old@, new@),
            n == old@.len(),
            m == new@.len(),
            len <= limit <= n,
            limit <= m,
            suffix_from(p, len as int, limit as int) == suffix_from(p, 0, limit as int),
        decreases limit - len,
    {
        len = len + 1;
    }
    len
}

/// The largest product of the lengths for which an edit script is looked for.
pub const MYERS_MIDDLE_PRODUCT_THRESHOLD: usize = 100_000;

/// The largest number of cells in a search for an edit script.
pub const MYERS_TRACE_CELL_THRESHOLD: usize = 2_000_000;

/// Whether an edit script is looked for: both sequences have items, and the search is affordable.
pub open spec fn worth_a_script(n: int, m: int) -> bool {
    &&& n > 0
    &&& m > 0
    &&& n * m <= MYERS_MIDDLE_PRODUCT_THRESHOLD
    &&& (n + m + 1) * (2 * (n + m) + 3) <= MYERS_TRACE_CELL_THRESHOLD
}

/// Decides whether an edit script is looked for.
pub fn should_run_myers(n: usize, m: usize) -> (run: bool)
    ensures
        run == worth_a_script(n as int, m as int),
        run ==> n <= 100_000 && m <= 100_000,
{
    if n == 0 || m == 0 {
        return false;
    }
    if n > MYERS_MIDDLE_PRODUCT_THRESHOLD || m > MYERS_MIDDLE_PRODUCT_THRESHOLD {
        assert(n * m > MYERS_MIDDLE_PRODUCT_THRESHOLD) by (nonlinear_arith)
            requires
                n > 0,
                m > 0,
                n > MYERS_MIDDLE_PRODUCT_THRESHOLD || m > MYERS_MIDDLE_PRODUCT_THRESHOLD,
        ;
        return false;
    }
    assert(n * m <= 10_000_000_000) by (nonlinear_arith)
        requires
            0 < n <= 100_000,
            0 < m <= 100_000,
    ;
    if n as u64 * m as u64 > MYERS_MIDDLE_PRODUCT_THRESHOLD as u64 {
        return false;
    }
    let max: u64 = n as u64 + m as u64;
    assert((max + 1) * (2 * max + 3) <= 1_000_000_000_000) by (nonlinear_arith)
        requires
            max <= 200_000,
    ;
    (max + 1) * (2 * max + 3) <= MYERS_TRACE_CELL_THRESHOLD as u64
}

} // verus!
