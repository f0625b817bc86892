//! Path segment pools: tables by which messages refer to path segments.

use vstd::prelude::*;

use crate::message::action;
use crate::message::action::{PathSegment, Segment};
use crate::string_map;
use crate::string_map::StringMap;

verus! {

/// A pool after a segment has been looked up: the segment is at its end if it was not in it.
pub open spec fn absorb(pool: Seq<Segment>, segment: Segment) -> Seq<Segment> {
    if pool.contains(segment) {
        pool
    } else {
        pool.push(segment)
    }
}

/// A pool after the segments of a path have been looked up in turn.
pub open spec fn absorb_path(pool: Seq<Segment>, path: Seq<Segment>) -> Seq<Segment>
    decreases path.len(),
{
    if path.len() == 0 {
        pool
    } else {
        absorb(absorb_path(pool, path.drop_last()), path.last())
    }
}

/// Whether a pool keeps every segment of an earlier one at its index.
pub open spec fn extends(pool: Seq<Segment>, earlier: Seq<Segment>) -> bool {
    &&& earlier.len() <= pool.len()
    &&& forall|i: int| 0 <= i < earlier.len() ==> #[trigger] pool[i] == earlier[i]
}

/// A segment that is looked up ends up in the pool, and nothing else changes.
pub proof fn lemma_absorb(pool: Seq<Segment>, segment: Segment)
    ensures
        absorb(pool, segment).contains(segment),
        extends(absorb(pool, segment), pool),
        pool.no_duplicates() ==> absorb(pool, segment).no_duplicates(),
{
    let next = absorb(pool, segment);
    if !pool.contains(segment) {
        assert(next[pool.len() as int] == segment);
    }
}

/// Indexes are stable: later look-ups leave every segment where it is, and add each new one once.
pub proof fn lemma_absorb_path(pool: Seq<Segment>, path: Seq<Segment>)
    ensures
        extends(absorb_path(pool, path), pool),
        pool.no_duplicates() ==> absorb_path(pool, path).no_duplicates(),
        forall|i: int| 0 <= i < path.len() ==> absorb_path(pool, path).contains(#[trigger] path[i]),
    decreases path.len(),
{
    if path.len() > 0 {
        let before = absorb_path(pool, path.drop_last());
        lemma_absorb_path(pool, path.drop_last());
        lemma_absorb(before, path.last());
        let after = absorb_path(pool, path);
        assert forall|i: int| 0 <= i < path.len() implies after.contains(#[trigger] path[i]) by {
            if i < path.len() - 1 {
                assert(path.drop_last()[i] == path[i]);
                lemma_extends_contains(after, before, path[i]);
            }
        }
    }
}

/// What an earlier pool contains, a later one contains.
pub proof fn lemma_extends_contains(pool: Seq<Segment>, earlier: Seq<Segment>, segment: Segment)
    requires
        extends(pool, earlier),
        earlier.contains(segment),
    ensures
        pool.contains(segment),
{
    let i = choose|i: int| 0 <= i < earlier.len() && earlier[i] == segment;
    assert(pool[i] == segment);
}

/// A segment has the same index in an earlier and in a later pool.
pub proof fn law_indexes_are_stable(pool: Seq<Segment>, earlier: Seq<Segment>, segment: Segment)
    requires
        extends(pool, earlier),
        pool.no_duplicates(),
        earlier.contains(segment),
    ensures
        pool.index_of(segment) == earlier.index_of(segment),
        0 <= pool.index_of(segment) < earlier.len(),
{
    let i = earlier.index_of(segment);
    assert(pool[i] == segment);
    lemma_index_of(pool, i);
}

/// Without duplicates, the index of a segment is where it stands.
pub proof fn lemma_index_of(pool: Seq<Segment>, i: int)
    requires
        pool.no_duplicates(),
        0 <= i < pool.len(),
    ensures
        pool.index_of(pool[i]) == i,
{
    let j = pool.index_of(pool[i]);
    assert(pool.contains(pool[i]));
    assert(0 <= j < pool.len() && pool[j] == pool[i]);
}

/// A later pool of a later pool is a later pool.
pub proof fn lemma_extends_transitive(a: Seq<Segment>, b: Seq<Segment>, c: Seq<Segment>)
    requires
        extends(a, b),
        extends(b, c),
    ensures
        extends(a, c),
{
    assert forall|i: int| 0 <= i < c.len() implies #[trigger] a[i] == c[i] by {
        assert(b[i] == c[i]);
    }
}

/// Producer-side path segment pool with stable indexes and fast segment lookup.
#[derive(Debug)]
pub struct ProducerPathSegmentPool {
    segments: Vec<PathSegment>,
    keys: StringMap<usize>,
    indexes: std::collections::HashMap<usize, usize>,
}

impl View for ProducerPathSegmentPool {
    type V = Seq<Segment>;

    closed spec fn view(&self) -> Seq<Segment> {
        action::path_view(self.segments@)
    }
}

/// `Vec::capacity`: a vector has room for its elements, and never allocates more than
/// `isize::MAX` bytes, of which a path segment takes up at least one.
#[verifier::external_body]
fn capacity(segments: &Vec<PathSegment>) -> (capacity: usize)
    ensures
        segments@.len() <= capacity <= isize::MAX,
{
    segments.capacity()
}

impl ProducerPathSegmentPool {
    #[verifier::type_invariant]
    spec fn inv(self) -> bool {
        let segs = action::path_view(self.segments@);
        let keys = self.keys.entries();
        let indexes = self.indexes@;
        &&& self.keys.well_formed()
        &&& segs.no_duplicates()
        &&& forall|j: int|
            0 <= j < keys.len() ==> {
                &&& (#[trigger] keys[j]).1 < segs.len()
                &&& segs[keys[j].1 as int] == Segment::Key(keys[j].0)
            }
        &&& forall|i: int|
            0 <= i < segs.len() ==> (#[trigger] segs[i] matches Segment::Key(key)
                ==> string_map::has_key(keys, key))
        &&& forall|n: usize| #[trigger]
            indexes.contains_key(n) ==> {
                &&& indexes[n] < segs.len()
                &&& segs[indexes[n] as int] == Segment::Index(n as int)
            }
        &&& forall|i: int|
            0 <= i < self.segments@.len() ==> (#[trigger] self.segments@[i] matches PathSegment::Index(n)
                ==> indexes.contains_key(n))
    }

    /// Creates an empty producer path segment pool.
    pub fn new() -> (pool: Self)
        ensures
            pool@ == Seq::<Segment>::empty(),
    {
        broadcast use vstd::std_specs::hash::group_hash_axioms;

        let pool = ProducerPathSegmentPool {
            segments: Vec::new(),
            keys: StringMap::new(),
            indexes: std::collections::HashMap::new(),
        };
        assert(pool@ =~= Seq::<Segment>::empty());
        pool
    }

    /// Finds the index of a segment.
    pub fn index_of(&self, segment: &PathSegment) -> (index: Option<usize>)
        ensures
            index is Some == self@.contains(segment@),
            index matches Some(i) ==> i == self@.index_of(segment@) && i < self@.len(),
    {
        broadcast use vstd::std_specs::hash::group_hash_axioms;

        proof {
            use_type_invariant(self);
        }
        let ghost segs = self@;
        let ghost keys = self.keys.entries();
        let found: Option<usize> = match segment {
            PathSegment::Key(key) => {
                proof {
                    string_map::lemma_slot_range(keys, key@);
                }
                match self.keys.get(key.as_str()) {
                    Some(index) => Some(*index),
                    None => None,
                }
            },
            PathSegment::Index(n) => match self.indexes.get(n) {
                Some(index) => Some(*index),
                None => None,
            },
        };
        proof {
            match found {
                Some(i) => {
                    assert(segs[i as int] == segment@);
                    lemma_index_of(segs, i as int);
                },
                None => {
                    if segs.contains(segment@) {
                        let i = choose|i: int| 0 <= i < segs.len() && segs[i] == segment@;
                        assert(self.segments@[i]@ == segment@);
                        assert(false);
                    }
                },
            }
        }
        found
    }

    /// Returns the number of segments.
    pub fn len(&self) -> (len: usize)
        ensures
            len == self@.len(),
            len <= isize::MAX,
            self@.no_duplicates(),
    {
        proof {
            use_type_invariant(self);
        }
        let _capacity: usize = capacity(&self.segments);
        self.segments.len()
    }

    /// Returns the segments in index order.
    pub fn segments(&self) -> (segments: &[PathSegment])
        ensures
            action::path_view(segments@) == self@,
    {
        self.segments.as_slice()
    }

    /// Finds the index of a segment, which is added at the end if it is not in the pool.
    pub fn index_for(&mut self, segment: &PathSegment) -> (index: usize)
        ensures
            final(self)@ == absorb(old(self)@, segment@),
            index < final(self)@.len(),
            index == final(self)@.index_of(segment@),
            final(self)@.no_duplicates(),
    {
        broadcast use vstd::std_specs::hash::group_hash_axioms;

        proof {
            use_type_invariant(&*self);
        }
        if let Some(index) = self.index_of(segment) {
            return index;
        }
        let ghost before = self@;
        let ghost old_keys = self.keys.entries();
        let ghost old_segments = self.segments@;
        let mut this = ProducerPathSegmentPool::new();
        std::mem::swap(&mut this, self);
        let mut segments = this.segments;
        let mut keys = this.keys;
        let mut indexes = this.indexes;
        let index: usize = segments.len();
        segments.push(action::copy_segment(segment));
        proof {
            assert(action::path_view(segments@) =~= before.push(segment@));
            lemma_absorb(before, segment@);
        }
        match segment {
            PathSegment::Key(key) => {
                proof {
                    string_map::lemma_slot_range(old_keys, key@);
                }
                keys.insert(key.clone(), index);
                proof {
                    let k = keys.entries();
                    string_map::lemma_with_entry_keys(old_keys, key@, index);
                    assert forall|j: int| 0 <= j < k.len() implies (#[trigger] k[j]).1
                        < segments@.len() && action::path_view(segments@)[k[j].1 as int]
                        == Segment::Key(k[j].0) by {
                        string_map::lemma_with_entry_entry(old_keys, key@, index, j);
                    }
                }
            },
            PathSegment::Index(n) => {
                indexes.insert(*n, index);
            },
        }
        proof {
            let segs = action::path_view(segments@);
            assert forall|i: int| 0 <= i < segs.len() implies (#[trigger] segs[i] matches Segment::Key(key)
                ==> string_map::has_key(keys.entries(), key)) by {
                if i < before.len() {
                    assert(segs[i] == before[i]);
                }
            }
            assert forall|i: int| 0 <= i < segments@.len() implies (#[trigger] segments@[i] matches PathSegment::Index(n)
                ==> indexes@.contains_key(n)) by {
                if i < before.len() {
                    assert(segments@[i] == old_segments[i]);
                } else {
                    assert(segments@[i]@ == segment@);
                }
            }
            lemma_index_of(segs, index as int);
        }
        *self = ProducerPathSegmentPool { segments, keys, indexes };
        index
    }
}

impl Clone for ProducerPathSegmentPool {
    fn clone(&self) -> (copy: Self)
        ensures
            copy@ == self@,
    {
        proof {
            use_type_invariant(self);
        }
        let mut copy = ProducerPathSegmentPool::new();
        let count: usize = self.segments.len();
        let mut i: usize = 0;
        assert(self@.take(0) =~= copy@);
        while i < count
            invariant
                i <= count == self.segments@.len(),
                self@.no_duplicates(),
                copy@ == self@.take(i as int),
            decreases count - i,
        {
            proof {
                assert(!copy@.contains(self@[i as int]));
                assert(self@[i as int] == self.segments@[i as int]@);
            }
            let _index: usize = copy.index_for(&self.segments[i]);
            i = i + 1;
            assert(copy@ =~= self@.take(i as int));
        }
        assert(copy@ =~= self@);
        copy
    }
}

impl Default for ProducerPathSegmentPool {
    fn default() -> (pool: Self)
        ensures
            pool@ == Seq::<Segment>::empty(),
    {
        ProducerPathSegmentPool::new()
    }
}

/// Finds the index of a segment in a pool and the segments appended to it, of which it becomes
/// the last if it is in neither.
pub fn index_in(
    pool: &ProducerPathSegmentPool,
    appended: &mut ProducerPathSegmentPool,
    segment: &PathSegment,
) -> (index: usize)
    requires
        (pool@ + old(appended)@).no_duplicates(),
    ensures
        (pool@ + final(appended)@).no_duplicates(),
        pool@ + final(appended)@ == absorb(pool@ + old(appended)@, segment@),
        index == (pool@ + final(appended)@).index_of(segment@),
        index < (pool@ + final(appended)@).len(),
{
    let ghost base = pool@;
    let ghost before = appended@;
    let ghost total = base + before;
    if let Some(index) = pool.index_of(segment) {
        proof {
            assert(total[index as int] == segment@);
            lemma_index_of(total, index as int);
        }
        return index;
    }
    let offset: usize = pool.len();
    let index: usize = appended.index_for(segment);
    let _length: usize = appended.len();
    proof {
        let after = base + appended@;
        assert(total.contains(segment@) <==> before.contains(segment@)) by {
            if before.contains(segment@) {
                let i = before.index_of(segment@);
                assert(total[base.len() + i] == segment@);
            }
            if total.contains(segment@) {
                let i = total.index_of(segment@);
                if i < base.len() {
                    assert(base[i] == segment@);
                } else {
                    assert(before[i - base.len()] == segment@);
                }
            }
        }
        assert(after =~= absorb(total, segment@));
        lemma_absorb(total, segment@);
        assert(after[offset + index] == segment@);
        lemma_index_of(after, offset + index);
    }
    offset + index
}

/// Producer-side path segment pool transaction.
///
/// The pool takes over the appended segments when the transaction is committed; it stays as it
/// was when the transaction is aborted or dropped.
#[derive(Debug)]
pub struct ProducerPathSegmentPoolTransaction<'a> {
    /// The pool as it was when the transaction started.
    pub pool: &'a mut ProducerPathSegmentPool,
    /// The segments appended since then.
    pub appended: ProducerPathSegmentPool,
}

impl ProducerPathSegmentPool {
    fn take_over(&mut self, appended: &ProducerPathSegmentPool)
        requires
            (old(self)@ + appended@).no_duplicates(),
        ensures
            final(self)@ == old(self)@ + appended@,
    {
        let ghost base = self@;
        let ghost total = base + appended@;
        let segments = appended.segments();
        let mut i: usize = 0;
        assert(total.take(base.len() as int) =~= base);
        while i < segments.len()
            invariant
                i <= segments@.len(),
                action::path_view(segments@) == appended@,
                total == base + appended@,
                total.no_duplicates(),
                self@ == total.take(base.len() + i),
            decreases segments@.len() - i,
        {
            proof {
                assert(total[base.len() + i] == segments@[i as int]@);
                assert(!self@.contains(segments@[i as int]@));
            }
            let _index: usize = self.index_for(&segments[i]);
            i = i + 1;
            assert(self@ =~= total.take(base.len() + i));
        }
        assert(self@ =~= total);
    }

    /// Starts an atomic producer pool update.
    pub fn transaction<'a>(&'a mut self) -> (txn: ProducerPathSegmentPoolTransaction<'a>)
        ensures
            txn.well_formed(),
            txn.pool@ == old(self)@,
            txn.appended@ == Seq::<Segment>::empty(),
            *final(self) == *final(txn.pool),
    {
        let _length: usize = self.len();
        let appended = ProducerPathSegmentPool::new();
        assert(self@ + appended@ =~= self@);
        ProducerPathSegmentPoolTransaction { pool: self, appended }
    }
}

impl<'a> ProducerPathSegmentPoolTransaction<'a> {
    /// The pool with the appended segments.
    pub open spec fn total(self) -> Seq<Segment> {
        self.pool@ + self.appended@
    }

    /// Whether no segment occurs twice.
    pub open spec fn well_formed(self) -> bool {
        self.total().no_duplicates()
    }

    /// Finds the index of a segment, which is appended if it is not in the pool.
    pub fn index_for(&mut self, segment: &PathSegment) -> (index: usize)
        requires
            old(self).well_formed(),
        ensures
            final(self).well_formed(),
            final(self).total() == absorb(old(self).total(), segment@),
            index == final(self).total().index_of(segment@),
            index < final(self).total().len(),
            final(self).pool@ == old(self).pool@,
            *final(final(self).pool) == *final(old(self).pool),
    {
        index_in(&*self.pool, &mut self.appended, segment)
    }

    /// Returns the segments appended since this transaction started.
    pub fn appended_segments(&self) -> (segments: &[PathSegment])
        ensures
            action::path_view(segments@) == self.appended@,
    {
        self.appended.segments()
    }

    /// Commits this transaction.
    pub fn commit(self)
        requires
            self.well_formed(),
        ensures
            final(self.pool)@ == self.total(),
    {
        self.pool.take_over(&self.appended);
    }

    /// Aborts this transaction: the pool stays as it was before.
    pub fn abort(self)
        ensures
            *final(self.pool) == *old(self.pool),
    {
    }
}

/// Consumer-side path segment pool with stable indexes.
#[derive(Debug)]
pub struct ConsumerPathSegmentPool {
    segments: Vec<PathSegment>,
}

impl View for ConsumerPathSegmentPool {
    type V = Seq<Segment>;

    closed spec fn view(&self) -> Seq<Segment> {
        action::path_view(self.segments@)
    }
}

impl Clone for ConsumerPathSegmentPool {
    fn clone(&self) -> (copy: Self)
        ensures
            copy@ == self@,
    {
        ConsumerPathSegmentPool { segments: action::copy_path(self.segments.as_slice()) }
    }
}

impl Default for ConsumerPathSegmentPool {
    fn default() -> (pool: Self)
        ensures
            pool@ == Seq::<Segment>::empty(),
    {
        ConsumerPathSegmentPool::new()
    }
}

/// Consumer-side path segment pool transaction.
///
/// The pool takes over the appended segments when the transaction is committed; it stays as it
/// was when the transaction is aborted or dropped.
#[derive(Debug)]
pub struct ConsumerPathSegmentPoolTransaction<'a> {
    /// The pool as it was when the transaction started.
    pub pool: &'a mut ConsumerPathSegmentPool,
    /// The segments appended since then.
    pub appended: Vec<PathSegment>,
}

impl ConsumerPathSegmentPool {
    /// Creates an empty consumer path segment pool.
    pub fn new() -> (pool: Self)
        ensures
            pool@ == Seq::<Segment>::empty(),
    {
        let pool = ConsumerPathSegmentPool { segments: Vec::new() };
        assert(pool@ =~= Seq::<Segment>::empty());
        pool
    }

    /// Starts an atomic consumer pool update.
    pub fn transaction<'a>(&'a mut self) -> (txn: ConsumerPathSegmentPoolTransaction<'a>)
        ensures
            txn.pool@ == old(self)@,
            txn.appended@ == Seq::<PathSegment>::empty(),
            txn.total() == old(self)@,
            *final(self) == *final(txn.pool),
    {
        let appended: Vec<PathSegment> = Vec::new();
        assert(self@ + action::path_view(appended@) =~= self@);
        ConsumerPathSegmentPoolTransaction { pool: self, appended }
    }

    fn take_over(&mut self, appended: Vec<PathSegment>)
        ensures
            final(self)@ == old(self)@ + action::path_view(appended@),
    {
        let mut segments = appended;
        let ghost before = self@;
        self.segments.append(&mut segments);
        assert(self@ =~= before + action::path_view(appended@));
    }
}

impl<'a> ConsumerPathSegmentPoolTransaction<'a> {
    /// The pool with the appended segments.
    pub open spec fn total(self) -> Seq<Segment> {
        self.pool@ + action::path_view(self.appended@)
    }

    /// Appends path segments declared by message metadata.
    pub fn append_segments(&mut self, segments: Vec<PathSegment>)
        ensures
            final(self).total() == old(self).total() + action::path_view(segments@),
            final(self).pool@ == old(self).pool@,
            *final(final(self).pool) == *final(old(self).pool),
    {
        let mut more = segments;
        let ghost before = self.total();
        self.appended.append(&mut more);
        assert(self.total() =~= before + action::path_view(segments@));
    }

    /// Returns a copy of the segment at an index.
    pub fn path_segment_at(&self, index: usize) -> (segment: Option<PathSegment>)
        ensures
            match segment {
                Some(found) => index < self.total().len() && found@ == self.total()[index as int],
                None => index >= self.total().len(),
            },
    {
        let base: usize = self.pool.segments.len();
        if index < base {
            assert(self.total()[index as int] == self.pool.segments@[index as int]@);
            Some(action::copy_segment(&self.pool.segments[index]))
        } else if index - base < self.appended.len() {
            assert(self.total()[index as int] == self.appended@[index - base]@);
            Some(action::copy_segment(&self.appended[index - base]))
        } else {
            None
        }
    }

    /// Returns the number of segments.
    pub fn pool_len(&self) -> (len: usize)
        ensures
            len == self.total().len(),
    {
        let _base: usize = capacity(&self.pool.segments);
        let _appended: usize = capacity(&self.appended);
        self.pool.segments.len() + self.appended.len()
    }

    /// Commits this transaction.
    pub fn commit(self)
        ensures
            final(self.pool)@ == self.total(),
    {
        self.pool.take_over(self.appended);
    }

    /// Aborts this transaction: the pool stays as it was before.
    pub fn abort(self)
        ensures
            *final(self.pool) == *old(self.pool),
    {
    }
}

} // verus!
