//! A map from strings that keeps its entries in key order.

use vstd::prelude::*;

use crate::text;
use crate::text::KeyOrder;

verus! {

/// The position at which the key `key` stands, or would stand, among entries in key order.
#[verifier::opaque]
pub open spec fn slot<T>(entries: Seq<(Seq<char>, T)>, key: Seq<char>) -> int
    decreases entries.len(),
{
    if entries.len() == 0 {
        0
    } else if text::key_lt(entries[0].0, key) {
        1 + slot(entries.drop_first(), key)
    } else {
        0
    }
}

/// Whether an entry has the key `key`.
pub open spec fn has_key<T>(entries: Seq<(Seq<char>, T)>, key: Seq<char>) -> bool {
    slot(entries, key) < entries.len() && entries[slot(entries, key)].0 == key
}

/// The value under the key `key`.
pub open spec fn lookup<T>(entries: Seq<(Seq<char>, T)>, key: Seq<char>) -> T {
    entries[slot(entries, key)].1
}

/// The entries with `value` put under the key `key`.
pub open spec fn with_entry<T>(entries: Seq<(Seq<char>, T)>, key: Seq<char>, value: T) -> Seq<
    (Seq<char>, T),
> {
    if has_key(entries, key) {
        entries.update(slot(entries, key), (key, value))
    } else {
        entries.insert(slot(entries, key), (key, value))
    }
}

/// The entries without the key `key`.
pub open spec fn without_key<T>(entries: Seq<(Seq<char>, T)>, key: Seq<char>) -> Seq<
    (Seq<char>, T),
> {
    if has_key(entries, key) {
        entries.remove(slot(entries, key))
    } else {
        entries
    }
}

/// Whether the keys increase strictly, so that no key occurs twice.
pub open spec fn sorted<T>(entries: Seq<(Seq<char>, T)>) -> bool {
    forall|i: int, j: int|
        #![trigger entries[i], entries[j]]
        0 <= i < j < entries.len() ==> text::key_lt(entries[i].0, entries[j].0)
}

/// A slot lies within the entries or right behind them.
pub proof fn lemma_slot_range<T>(entries: Seq<(Seq<char>, T)>, key: Seq<char>)
    ensures
        0 <= slot(entries, key) <= entries.len(),
        forall|i: int|
            0 <= i < slot(entries, key) ==> text::key_lt(#[trigger] entries[i].0, key),
        slot(entries, key) < entries.len() ==> !text::key_lt(
            entries[slot(entries, key)].0,
            key,
        ),
    decreases entries.len(),
{
    reveal_with_fuel(slot, 2);
    if entries.len() > 0 && text::key_lt(entries[0].0, key) {
        let rest = entries.drop_first();
        lemma_slot_range(rest, key);
        assert forall|i: int| 0 <= i < slot(entries, key) implies text::key_lt(
            #[trigger] entries[i].0,
            key,
        ) by {
            if i > 0 {
                assert(rest[i - 1] == entries[i]);
            }
        }
        if slot(entries, key) < entries.len() {
            assert(rest[slot(rest, key)] == entries[slot(entries, key)]);
        }
    }
}

/// The entries below a key are exactly those in front of its slot.
pub proof fn lemma_slot_is<T>(entries: Seq<(Seq<char>, T)>, key: Seq<char>, at: int)
    requires
        0 <= at <= entries.len(),
        forall|i: int| 0 <= i < at ==> text::key_lt(#[trigger] entries[i].0, key),
        at < entries.len() ==> !text::key_lt(entries[at].0, key),
    ensures
        slot(entries, key) == at,
    decreases entries.len(),
{
    reveal_with_fuel(slot, 2);
    if entries.len() > 0 {
        if at == 0 {
        } else {
            assert(text::key_lt(entries[0].0, key));
            let rest = entries.drop_first();
            assert forall|i: int| 0 <= i < at - 1 implies text::key_lt(
                #[trigger] rest[i].0,
                key,
            ) by {
                assert(rest[i] == entries[i + 1]);
            }
            if at < entries.len() {
                assert(rest[at - 1] == entries[at]);
            }
            lemma_slot_is(rest, key, at - 1);
        }
    }
}

/// In sorted entries a key that occurs stands at its slot.
pub proof fn lemma_slot_of<T>(entries: Seq<(Seq<char>, T)>, at: int)
    requires
        sorted(entries),
        0 <= at < entries.len(),
    ensures
        slot(entries, entries[at].0) == at,
        has_key(entries, entries[at].0),
        lookup(entries, entries[at].0) == entries[at].1,
{
    text::lemma_key_irreflexive(entries[at].0);
    lemma_slot_is(entries, entries[at].0, at);
}

/// In sorted entries every key from the slot on, other than the key itself, is above the key.
pub proof fn lemma_above_slot<T>(entries: Seq<(Seq<char>, T)>, key: Seq<char>)
    requires
        sorted(entries),
    ensures
        forall|i: int|
            slot(entries, key) <= i < entries.len() && entries[i].0 != key ==> text::key_lt(
                key,
                #[trigger] entries[i].0,
            ),
{
    lemma_slot_range(entries, key);
    let at = slot(entries, key);
    assert forall|i: int| at <= i < entries.len() && entries[i].0 != key implies text::key_lt(
        key,
        #[trigger] entries[i].0,
    ) by {
        text::lemma_key_total(entries[at].0, key);
        if i > at {
            assert(text::key_lt(entries[at].0, entries[i].0));
            if entries[at].0 != key {
                text::lemma_key_transitive(key, entries[at].0, entries[i].0);
            }
        }
    }
}

/// A slot depends on the keys alone.
pub proof fn lemma_slot_keys<T, U>(
    a: Seq<(Seq<char>, T)>,
    b: Seq<(Seq<char>, U)>,
    key: Seq<char>,
)
    requires
        a.len() == b.len(),
        forall|i: int| 0 <= i < a.len() ==> (#[trigger] a[i]).0 == (#[trigger] b[i]).0,
    ensures
        slot(a, key) == slot(b, key),
        has_key(a, key) == has_key(b, key),
    decreases a.len(),
{
    reveal_with_fuel(slot, 2);
    if a.len() > 0 {
        assert(a[0].0 == b[0].0);
        let x = a.drop_first();
        let y = b.drop_first();
        assert forall|i: int| 0 <= i < x.len() implies (#[trigger] x[i]).0 == (#[trigger] y[i]).0 by {
            assert(x[i] == a[i + 1]);
            assert(y[i] == b[i + 1]);
        }
        lemma_slot_keys(x, y, key);
    }
    lemma_slot_range(a, key);
    if slot(a, key) < a.len() {
        assert(a[slot(a, key)].0 == b[slot(a, key)].0);
    }
}

/// A map from strings to values of type `V`, held in key order.
#[derive(Debug)]
pub struct StringMap<V> {
    keys: Vec<String>,
    values: Vec<V>,
}

impl<V> StringMap<V> {
    #[verifier::type_invariant]
    spec fn inv(self) -> bool {
        &&& self.keys@.len() == self.values@.len()
        &&& forall|i: int, j: int|
            #![trigger self.keys@[i], self.keys@[j]]
            0 <= i < j < self.keys@.len() ==> text::key_lt(self.keys@[i]@, self.keys@[j]@)
    }

    /// The values in key order.
    pub closed spec fn value_seq(self) -> Seq<V> {
        self.values@
    }

    /// The keys in their order.
    pub closed spec fn key_seq(self) -> Seq<Seq<char>> {
        Seq::new(self.keys@.len(), |i: int| self.keys@[i]@)
    }

    /// The entries in key order.
    pub open spec fn entries(self) -> Seq<(Seq<char>, V)> {
        Seq::new(self.value_seq().len(), |i: int| (self.key_seq()[i], self.value_seq()[i]))
    }

    /// What every map keeps: one key for each value, in strictly increasing order.
    pub open spec fn well_formed(self) -> bool {
        &&& self.key_seq().len() == self.value_seq().len()
        &&& sorted(self.entries())
    }

    proof fn lemma_keys_in_order(self)
        requires
            self.well_formed(),
        ensures
            self.inv(),
    {
        assert forall|i: int, j: int|
            #![trigger self.keys@[i], self.keys@[j]]
            0 <= i < j < self.keys@.len() implies text::key_lt(
            self.keys@[i]@,
            self.keys@[j]@,
        ) by {
            assert(self.entries()[i].0 == self.keys@[i]@);
            assert(self.entries()[j].0 == self.keys@[j]@);
        }
    }

    /// A map is larger than each of its values.
    pub proof fn lemma_smaller(self, i: int)
        requires
            0 <= i < self.value_seq().len(),
        ensures
            decreases_to!(self => self.value_seq()[i]),
    {
        assert(decreases_to!(self => self.values));
        assert(decreases_to!(self.values => self.values@));
        assert(decreases_to!(self.values@ => self.values@[i]));
    }

    /// Creates an empty map.
    pub fn new() -> (map: Self)
        ensures
            map.entries() == Seq::<(Seq<char>, V)>::empty(),
            map.well_formed(),
    {
        let map = StringMap { keys: Vec::new(), values: Vec::new() };
        assert(map.entries() =~= Seq::<(Seq<char>, V)>::empty());
        map
    }

    /// The number of entries.
    pub fn len(&self) -> (len: usize)
        ensures
            len == self.entries().len(),
            self.well_formed(),
    {
        proof {
            use_type_invariant(self);
        }
        self.values.len()
    }

    /// Tells whether the map has no entry.
    pub fn is_empty(&self) -> (empty: bool)
        ensures
            empty == (self.entries().len() == 0),
            self.well_formed(),
    {
        self.len() == 0
    }

    /// The key of the entry at a position in key order.
    pub fn key_at(&self, at: usize) -> (key: &String)
        requires
            at < self.entries().len(),
        ensures
            key@ == self.entries()[at as int].0,
            self.well_formed(),
    {
        proof {
            use_type_invariant(self);
        }
        &self.keys[at]
    }

    /// The value of the entry at a position in key order.
    pub fn value_at(&self, at: usize) -> (value: &V)
        requires
            at < self.entries().len(),
        ensures
            *value == self.entries()[at as int].1,
            self.well_formed(),
    {
        proof {
            use_type_invariant(self);
        }
        &self.values[at]
    }

    /// Finds the position at which a key stands or would stand.
    fn find(&self, key: &str) -> (found: (usize, bool))
        ensures
            found.0 == slot(self.entries(), key@),
            found.1 == has_key(self.entries(), key@),
            found.0 <= self.keys@.len(),
    {
        proof {
            use_type_invariant(self);
        }
        let ghost e = self.entries();
        let mut low: usize = 0;
        let mut high: usize = self.keys.len();
        while low < high
            invariant
                low <= high <= self.keys@.len(),
                self.keys@.len() == self.values@.len(),
                e == self.entries(),
                sorted(e),
                forall|i: int| 0 <= i < low ==> text::key_lt(#[trigger] e[i].0, key@),
                forall|i: int| high <= i < e.len() ==> text::key_lt(key@, #[trigger] e[i].0),
            decreases high - low,
        {
            let middle: usize = low + (high - low) / 2;
            assert(e[middle as int].0 == self.keys@[middle as int]@);
            match text::key_order(self.keys[middle].as_str(), key) {
                KeyOrder::Before => {
                    proof {
                        assert forall|i: int| 0 <= i < middle + 1 implies text::key_lt(
                            #[trigger] e[i].0,
                            key@,
                        ) by {
                            if i < middle {
                                assert(text::key_lt(e[i].0, e[middle as int].0));
                                text::lemma_key_transitive(e[i].0, e[middle as int].0, key@);
                            }
                        }
                    }
                    low = middle + 1;
                },
                KeyOrder::Same => {
                    proof {
                        lemma_slot_of(e, middle as int);
                    }
                    return (middle, true);
                },
                KeyOrder::After => {
                    proof {
                        assert forall|i: int| middle <= i < e.len() implies text::key_lt(
                            key@,
                            #[trigger] e[i].0,
                        ) by {
                            if i > middle {
                                assert(text::key_lt(e[middle as int].0, e[i].0));
                                text::lemma_key_transitive(key@, e[middle as int].0, e[i].0);
                            }
                        }
                    }
                    high = middle;
                },
            }
        }
        proof {
            if low < e.len() {
                assert(text::key_lt(key@, e[low as int].0));
                text::lemma_key_irreflexive(key@);
                if text::key_lt(e[low as int].0, key@) {
                    text::lemma_key_transitive(key@, e[low as int].0, key@);
                }
            }
            lemma_slot_is(e, key@, low as int);
        }
        (low, false)
    }

    /// Tells whether the map has an entry under a key.
    pub fn contains_key(&self, key: &str) -> (found: bool)
        ensures
            found == has_key(self.entries(), key@),
            self.well_formed(),
    {
        proof {
            use_type_invariant(self);
        }
        self.find(key).1
    }

    /// Returns the value under a key.
    pub fn get(&self, key: &str) -> (value: Option<&V>)
        ensures
            value is Some == has_key(self.entries(), key@),
            value matches Some(v) ==> *v == lookup(self.entries(), key@),
            self.well_formed(),
    {
        proof {
            use_type_invariant(self);
        }
        let (at, found) = self.find(key);
        if found {
            Some(&self.values[at])
        } else {
            None
        }
    }

    /// Returns the value under a key for modification in place.
    pub fn get_mut<'a>(&'a mut self, key: &str) -> (value: Option<&'a mut V>)
        ensures
            old(self).well_formed(),
            value is Some == has_key(old(self).entries(), key@),
            value matches Some(v) ==> {
                &&& *v == lookup(old(self).entries(), key@)
                &&& final(self).entries() == with_entry(old(self).entries(), key@, *final(v))
            },
            value is None ==> *final(self) == *old(self),
    {
        proof {
            use_type_invariant(&*self);
        }
        let (at, found) = self.find(key);
        let ghost e = self.entries();
        if found {
            assert(forall|x: V|
                Seq::new(
                    self.values@.update(at as int, x).len(),
                    |i: int| (self.key_seq()[i], self.values@.update(at as int, x)[i]),
                ) =~= #[trigger] e.update(at as int, (key@, x)));
            Some(&mut self.values[at])
        } else {
            None
        }
    }

    /// Puts a value under a key, in place of the one that was there.
    pub fn insert(&mut self, key: String, value: V)
        ensures
            final(self).entries() == with_entry(old(self).entries(), key@, value),
            old(self).well_formed(),
            final(self).well_formed(),
    {
        proof {
            use_type_invariant(&*self);
        }
        let (at, found) = self.find(key.as_str());
        let ghost e = self.entries();
        let mut this = StringMap::new();
        std::mem::swap(&mut this, self);
        let mut keys = this.keys;
        let mut values = this.values;
        if found {
            values.set(at, value);
        } else {
            keys.insert(at, key);
            values.insert(at, value);
        }
        proof {
            let n = StringMap { keys, values };
            assert(n.entries() =~= with_entry(e, key@, value));
            lemma_with_entry_sorted(e, key@, value);
            n.lemma_keys_in_order();
        }
        *self = StringMap { keys, values };
    }

    /// Adds an entry whose key is above every key of the map.
    pub fn push_last(&mut self, key: String, value: V)
        requires
            forall|i: int|
                0 <= i < old(self).entries().len() ==> text::key_lt(
                    #[trigger] old(self).entries()[i].0,
                    key@,
                ),
        ensures
            final(self).entries() == old(self).entries().push((key@, value)),
            final(self).well_formed(),
    {
        proof {
            use_type_invariant(&*self);
        }
        let ghost e = self.entries();
        let mut this = StringMap::new();
        std::mem::swap(&mut this, self);
        let mut keys = this.keys;
        let mut values = this.values;
        keys.push(key);
        values.push(value);
        proof {
            let n = StringMap { keys, values };
            let next = n.entries();
            assert(next =~= e.push((key@, value)));
            assert forall|i: int, j: int|
                #![trigger next[i], next[j]]
                0 <= i < j < next.len() implies text::key_lt(next[i].0, next[j].0) by {
                assert(next[i] == e[i]);
                if j < e.len() {
                    assert(next[j] == e[j]);
                }
            }
            n.lemma_keys_in_order();
        }
        *self = StringMap { keys, values };
    }

    /// Takes the entry under a key out of the map and returns its value.
    pub fn remove(&mut self, key: &str) -> (value: Option<V>)
        ensures
            final(self).entries() == without_key(old(self).entries(), key@),
            value is Some == has_key(old(self).entries(), key@),
            value matches Some(v) ==> v == lookup(old(self).entries(), key@),
            old(self).well_formed(),
            final(self).well_formed(),
    {
        proof {
            use_type_invariant(&*self);
        }
        let (at, found) = self.find(key);
        let ghost e = self.entries();
        if !found {
            return None;
        }
        let mut this = StringMap::new();
        std::mem::swap(&mut this, self);
        let mut keys = this.keys;
        let mut values = this.values;
        let _key = keys.remove(at);
        let value = values.remove(at);
        proof {
            let n = StringMap { keys, values };
            assert(n.entries() =~= without_key(e, key@));
            lemma_without_key_sorted(e, key@);
            n.lemma_keys_in_order();
        }
        *self = StringMap { keys, values };
        Some(value)
    }
}

/// Putting an entry in keeps the key order.
pub proof fn lemma_with_entry_sorted<T>(entries: Seq<(Seq<char>, T)>, key: Seq<char>, value: T)
    requires
        sorted(entries),
    ensures
        sorted(with_entry(entries, key, value)),
{
    lemma_slot_range(entries, key);
    lemma_above_slot(entries, key);
    let at = slot(entries, key);
    let next = with_entry(entries, key, value);
    if has_key(entries, key) {
        assert forall|i: int, j: int|
            #![trigger next[i], next[j]]
            0 <= i < j < next.len() implies text::key_lt(next[i].0, next[j].0) by {
            assert(next[i].0 == entries[i].0);
            assert(next[j].0 == entries[j].0);
        }
    } else {
        if at < entries.len() {
            text::lemma_key_total(entries[at].0, key);
        }
        assert forall|i: int, j: int|
            #![trigger next[i], next[j]]
            0 <= i < j < next.len() implies text::key_lt(next[i].0, next[j].0) by {
            let a = if i < at {
                i
            } else {
                i - 1
            };
            let b = if j < at {
                j
            } else {
                j - 1
            };
            if i == at {
                assert(next[j] == entries[b]);
                if entries[b].0 == key {
                    if b > at {
                        assert(text::key_lt(entries[at].0, entries[b].0));
                        assert(false);
                    }
                }
            } else if j == at {
                assert(next[i] == entries[a]);
            } else {
                assert(next[i] == entries[a]);
                assert(next[j] == entries[b]);
            }
        }
    }
}

/// Putting in the value that is already there changes nothing.
pub proof fn lemma_same_entry<T>(entries: Seq<(Seq<char>, T)>, key: Seq<char>)
    requires
        has_key(entries, key),
    ensures
        with_entry(entries, key, lookup(entries, key)) == entries,
{
    lemma_slot_range(entries, key);
    assert(with_entry(entries, key, lookup(entries, key)) =~= entries);
}

/// Which keys occur after an entry has been put in.
pub proof fn lemma_with_entry_keys<T>(entries: Seq<(Seq<char>, T)>, key: Seq<char>, value: T)
    requires
        sorted(entries),
    ensures
        has_key(with_entry(entries, key, value), key),
        lookup(with_entry(entries, key, value), key) == value,
        forall|k: Seq<char>| #[trigger]
            has_key(with_entry(entries, key, value), k) == (k == key || has_key(entries, k)),
        forall|k: Seq<char>|
            k != key && has_key(entries, k) ==> #[trigger] lookup(
                with_entry(entries, key, value),
                k,
            ) == lookup(entries, k),
{
    lemma_slot_range(entries, key);
    lemma_with_entry_sorted(entries, key, value);
    let next = with_entry(entries, key, value);
    let at = slot(entries, key);
    assert(next[at] == (key, value));
    lemma_slot_of(next, at);
    assert forall|k: Seq<char>| k != key implies #[trigger] has_key(next, k) == has_key(entries, k)
        && (has_key(entries, k) ==> lookup(next, k) == lookup(entries, k)) by {
        lemma_slot_range(entries, k);
        lemma_slot_range(next, k);
        if has_key(entries, k) {
            let i = slot(entries, k);
            let j = if has_key(entries, key) || i < at {
                i
            } else {
                i + 1
            };
            assert(next[j] == entries[i]);
            lemma_slot_of(next, j);
        }
        if has_key(next, k) {
            let j = slot(next, k);
            let i = if has_key(entries, key) || j < at {
                j
            } else {
                j - 1
            };
            assert(next[j] == entries[i]);
            lemma_slot_of(entries, i);
        }
    }
    assert forall|k: Seq<char>| k != key && has_key(entries, k) implies #[trigger] lookup(next, k)
        == lookup(entries, k) by {
        assert(has_key(next, k) == has_key(entries, k));
    }
}

/// Where the entries come from after one has been put in.
pub proof fn lemma_with_entry_entry<T>(
    entries: Seq<(Seq<char>, T)>,
    key: Seq<char>,
    value: T,
    j: int,
)
    requires
        0 <= j < with_entry(entries, key, value).len(),
    ensures
        with_entry(entries, key, value)[j] == (key, value) || entries.contains(
            with_entry(entries, key, value)[j],
        ),
{
    lemma_slot_range(entries, key);
    let next = with_entry(entries, key, value);
    let at = slot(entries, key);
    if j != at {
        let i = if has_key(entries, key) || j < at {
            j
        } else {
            j - 1
        };
        assert(next[j] == entries[i]);
    }
}

/// Taking an entry out keeps the key order.
pub proof fn lemma_without_key_sorted<T>(entries: Seq<(Seq<char>, T)>, key: Seq<char>)
    requires
        sorted(entries),
    ensures
        sorted(without_key(entries, key)),
{
    lemma_slot_range(entries, key);
    let at = slot(entries, key);
    let next = without_key(entries, key);
    if has_key(entries, key) {
        assert forall|i: int, j: int|
            #![trigger next[i], next[j]]
            0 <= i < j < next.len() implies text::key_lt(next[i].0, next[j].0) by {
            let a = if i < at {
                i
            } else {
                i + 1
            };
            let b = if j < at {
                j
            } else {
                j + 1
            };
            assert(next[i] == entries[a]);
            assert(next[j] == entries[b]);
        }
    }
}

/// The value under a key, if the key occurs.
pub open spec fn value_of<T>(entries: Seq<(Seq<char>, T)>, key: Seq<char>) -> Option<T> {
    if has_key(entries, key) {
        Some(lookup(entries, key))
    } else {
        None
    }
}

/// What is found after an entry has been put in.
pub proof fn lemma_put_value<T>(entries: Seq<(Seq<char>, T)>, key: Seq<char>, value: T)
    requires
        sorted(entries),
    ensures
        sorted(with_entry(entries, key, value)),
        forall|k: Seq<char>| #[trigger]
            value_of(with_entry(entries, key, value), k) == if k == key {
                Some(value)
            } else {
                value_of(entries, k)
            },
{
    lemma_with_entry_sorted(entries, key, value);
    lemma_with_entry_keys(entries, key, value);
    let next = with_entry(entries, key, value);
    assert forall|k: Seq<char>| #[trigger]
        value_of(next, k) == if k == key {
            Some(value)
        } else {
            value_of(entries, k)
        } by {
        assert(has_key(next, k) == (k == key || has_key(entries, k)));
        if k != key && has_key(entries, k) {
            assert(lookup(next, k) == lookup(entries, k));
        }
    }
}

/// What is found after an entry has been taken out.
pub proof fn lemma_removed_value<T>(entries: Seq<(Seq<char>, T)>, key: Seq<char>)
    requires
        sorted(entries),
    ensures
        sorted(without_key(entries, key)),
        forall|k: Seq<char>| #[trigger]
            value_of(without_key(entries, key), k) == if k == key {
                None
            } else {
                value_of(entries, k)
            },
{
    lemma_without_key_sorted(entries, key);
    let next = without_key(entries, key);
    let at = slot(entries, key);
    lemma_slot_range(entries, key);
    assert forall|k: Seq<char>| #[trigger]
        value_of(next, k) == if k == key {
            None
        } else {
            value_of(entries, k)
        } by {
        lemma_slot_range(entries, k);
        lemma_slot_range(next, k);
        if has_key(entries, key) {
            if has_key(next, k) {
                let j = slot(next, k);
                let i = if j < at {
                    j
                } else {
                    j + 1
                };
                assert(next[j] == entries[i]);
                lemma_slot_of(entries, i);
            }
            if k != key && has_key(entries, k) {
                let i = slot(entries, k);
                let j = if i < at {
                    i
                } else {
                    i - 1
                };
                assert(next[j] == entries[i]);
                lemma_slot_of(next, j);
            }
        }
    }
}

/// Entries in key order are determined by what is found under each key.
pub proof fn lemma_same_values<T>(a: Seq<(Seq<char>, T)>, b: Seq<(Seq<char>, T)>)
    requires
        sorted(a),
        sorted(b),
        forall|k: Seq<char>| #[trigger] value_of(a, k) == value_of(b, k),
    ensures
        a == b,
    decreases a.len(),
{
    if a.len() == 0 {
        if b.len() > 0 {
            lemma_slot_of(b, 0);
            lemma_slot_range(a, b[0].0);
            assert(value_of(a, b[0].0) == value_of(b, b[0].0));
        }
        assert(a =~= b);
    } else {
        lemma_slot_of(a, 0);
        assert(value_of(a, a[0].0) == value_of(b, a[0].0));
        lemma_slot_range(b, a[0].0);
        lemma_slot_of(b, 0);
        assert(value_of(a, b[0].0) == value_of(b, b[0].0));
        lemma_slot_range(a, b[0].0);
        let i = slot(a, b[0].0);
        let j = slot(b, a[0].0);
        if j > 0 {
            assert(text::key_lt(b[0].0, b[j].0));
            if i > 0 {
                assert(text::key_lt(a[0].0, a[i].0));
                text::lemma_key_transitive(a[0].0, b[0].0, a[0].0);
            }
            text::lemma_key_irreflexive(a[0].0);
        }
        assert(a[0] == b[0]);
        let x = a.drop_first();
        let y = b.drop_first();
        lemma_tail(a);
        lemma_tail(b);
        assert forall|k: Seq<char>| #[trigger] value_of(x, k) == value_of(y, k) by {
            assert(value_of(a, k) == value_of(b, k));
        }
        lemma_same_values(x, y);
        assert(a =~= seq![a[0]] + x);
        assert(b =~= seq![b[0]] + y);
    }
}

/// What is found without the first entry.
proof fn lemma_tail<T>(entries: Seq<(Seq<char>, T)>)
    requires
        sorted(entries),
        entries.len() > 0,
    ensures
        sorted(entries.drop_first()),
        forall|k: Seq<char>| #[trigger]
            value_of(entries.drop_first(), k) == if k == entries[0].0 {
                None
            } else {
                value_of(entries, k)
            },
{
    lemma_slot_of(entries, 0);
    lemma_removed_value(entries, entries[0].0);
    assert(without_key(entries, entries[0].0) =~= entries.drop_first());
}

} // verus!
