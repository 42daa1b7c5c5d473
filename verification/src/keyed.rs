//! Tables keyed by text that remember the order in which their keys first came.

use crate::order::lemma_same_values;
use vstd::hash_map::StringHashMap;
use vstd::prelude::*;

verus! {

// ---------------------------------------------------------------------------
// Specification
// ---------------------------------------------------------------------------

/// `key` is the key of entry `i`.
pub open spec fn is_at<K, V>(s: Seq<(K, V)>, key: K, i: int) -> bool {
    &&& 0 <= i < s.len()
    &&& s[i].0 == key
}

/// Some entry has the key.
pub open spec fn has_key<K, V>(s: Seq<(K, V)>, key: K) -> bool {
    exists|i: int| is_at(s, key, i)
}

/// The entry that has the key.
pub open spec fn spot<K, V>(s: Seq<(K, V)>, key: K) -> int {
    choose|i: int| is_at(s, key, i)
}

/// No key comes twice.
pub open spec fn distinct<K, V>(s: Seq<(K, V)>) -> bool {
    forall|i: int, j: int| 0 <= i < j < s.len() ==> (#[trigger] s[i]).0 != (#[trigger] s[j]).0
}

/// The table after `item` was filed under `key`: at the end of the key's list, or in a new list
/// behind all others.
pub open spec fn filed<T>(s: Seq<(Seq<char>, Seq<T>)>, key: Seq<char>, item: T) -> Seq<
    (Seq<char>, Seq<T>),
> {
    if has_key(s, key) {
        let i = spot(s, key);
        s.update(i, (key, s[i].1.push(item)))
    } else {
        s.push((key, seq![item]))
    }
}

/// The table in which all `pairs` were filed, one after the other.
pub open spec fn filed_all<T>(pairs: Seq<(Seq<char>, T)>) -> Seq<(Seq<char>, Seq<T>)>
    decreases pairs.len(),
{
    if pairs.len() == 0 {
        Seq::empty()
    } else {
        filed(filed_all(pairs.drop_last()), pairs.last().0, pairs.last().1)
    }
}

/// The table after all `pairs` were filed in it, one after the other.
pub open spec fn filed_onto<T>(base: Seq<(Seq<char>, Seq<T>)>, pairs: Seq<(Seq<char>, T)>) -> Seq<
    (Seq<char>, Seq<T>),
>
    decreases pairs.len(),
{
    if pairs.len() == 0 {
        base
    } else {
        filed(filed_onto(base, pairs.drop_last()), pairs.last().0, pairs.last().1)
    }
}

/// What was filed under `key`, in order.
pub open spec fn items_under<T>(pairs: Seq<(Seq<char>, T)>, key: Seq<char>) -> Seq<T>
    decreases pairs.len(),
{
    if pairs.len() == 0 {
        Seq::empty()
    } else {
        let rest = items_under(pairs.drop_last(), key);
        if pairs.last().0 == key {
            rest.push(pairs.last().1)
        } else {
            rest
        }
    }
}

/// One side of all items.
pub open spec fn lists_seen<T, U>(s: Seq<(Seq<char>, Seq<T>)>, f: spec_fn(T) -> U) -> Seq<
    (Seq<char>, Seq<U>),
> {
    s.map_values(|e: (Seq<char>, Seq<T>)| (e.0, e.1.map_values(f)))
}

/// The number of items in all lists.
pub open spec fn item_count<T>(s: Seq<(Seq<char>, Seq<T>)>) -> nat
    decreases s.len(),
{
    if s.len() == 0 {
        0
    } else {
        item_count(s.drop_last()) + s.last().1.len()
    }
}

/// The table after `value` was stored for `key`: in place of the key's value, or behind all others.
pub open spec fn stored<K, V>(s: Seq<(K, V)>, key: K, value: V) -> Seq<(K, V)> {
    if has_key(s, key) {
        s.update(spot(s, key), (key, value))
    } else {
        s.push((key, value))
    }
}

/// The table after `n` was added to the count of `key`.
pub open spec fn counted<K>(s: Seq<(K, nat)>, key: K, n: nat) -> Seq<(K, nat)> {
    if has_key(s, key) {
        let i = spot(s, key);
        s.update(i, (key, s[i].1 + n))
    } else {
        s.push((key, n))
    }
}

/// The sum of all counts.
pub open spec fn count_sum<K>(s: Seq<(K, nat)>) -> nat
    decreases s.len(),
{
    if s.len() == 0 {
        0
    } else {
        count_sum(s.drop_last()) + s.last().1
    }
}

/// The count of `key`, 0 where it has none.
pub open spec fn count_of<K>(s: Seq<(K, nat)>, key: K) -> nat {
    if has_key(s, key) {
        s[spot(s, key)].1
    } else {
        0
    }
}

/// The table after each of `keys` was counted once more.
pub open spec fn tallied_onto<K>(base: Seq<(K, nat)>, keys: Seq<K>) -> Seq<(K, nat)>
    decreases keys.len(),
{
    if keys.len() == 0 {
        base
    } else {
        counted(tallied_onto(base, keys.drop_last()), keys.last(), 1)
    }
}

/// How often each of `keys` comes, in the order in which they first come.
pub open spec fn tallied<K>(keys: Seq<K>) -> Seq<(K, nat)> {
    tallied_onto(Seq::<(K, nat)>::empty(), keys)
}

/// How often `key` comes among `keys`.
pub open spec fn times<K>(keys: Seq<K>, key: K) -> nat
    decreases keys.len(),
{
    if keys.len() == 0 {
        0
    } else {
        times(keys.drop_last(), key) + if keys.last() == key {
            1nat
        } else {
            0nat
        }
    }
}

/// With no key twice, the entry that has a key is the only one.
pub proof fn lemma_spot<K, V>(s: Seq<(K, V)>, key: K, i: int)
    requires
        distinct(s),
        is_at(s, key, i),
    ensures
        spot(s, key) == i,
        has_key(s, key),
{
    let j = spot(s, key);
    assert(is_at(s, key, j));
}

// ---------------------------------------------------------------------------
// Table
// ---------------------------------------------------------------------------

/// Values keyed by text.
pub struct Keyed<V> {
    keys: Vec<String>,
    values: Vec<V>,
    index: StringHashMap<usize>,
}

impl<V> Keyed<V> {
    /// Every key has one value, and the index finds it.
    pub closed spec fn wf(self) -> bool {
        &&& self.keys@.len() == self.values@.len()
        &&& forall|i: int|
            0 <= i < self.keys@.len() ==> self.index@.contains_key((#[trigger] self.keys@[i])@)
                && self.index@[self.keys@[i]@] == i
        &&& forall|k: Seq<char>| #[trigger]
            self.index@.contains_key(k) ==> self.index@[k] < self.keys@.len()
                && self.keys@[self.index@[k] as int]@ == k
    }

    /// The keys with their values, in the order in which the keys first came.
    pub closed spec fn entries(self) -> Seq<(Seq<char>, V)> {
        Seq::new(self.values@.len(), |i: int| (self.keys@[i]@, self.values@[i]))
    }

    /// No key comes twice.
    pub proof fn lemma_distinct(self)
        requires
            self.wf(),
        ensures
            distinct(self.entries()),
    {
        let e = self.entries();
        assert forall|i: int, j: int| 0 <= i < j < e.len() implies (#[trigger] e[i]).0 != (
        #[trigger] e[j]).0 by {
            assert(self.index@[self.keys@[i]@] == i);
            assert(self.index@[self.keys@[j]@] == j);
        }
    }

    /// An empty table.
    pub fn new() -> (r: Keyed<V>)
        ensures
            r.wf(),
            r.entries() == Seq::<(Seq<char>, V)>::empty(),
    {
        let r = Keyed { keys: Vec::new(), values: Vec::new(), index: StringHashMap::new() };
        assert(r.entries() == Seq::<(Seq<char>, V)>::empty());
        r
    }

    /// The number of keys.
    pub fn len(&self) -> (r: usize)
        ensures
            r == self.entries().len(),
    {
        self.values.len()
    }

    /// The position of a key.
    pub fn position(&self, key: &str) -> (r: Option<usize>)
        requires
            self.wf(),
        ensures
            match r {
                Some(i) => is_at(self.entries(), key@, i as int) && spot(self.entries(), key@)
                    == i && has_key(self.entries(), key@),
                None => !has_key(self.entries(), key@),
            },
    {
        proof {
            self.lemma_distinct();
        }
        match self.index.get(key) {
            Some(i) => {
                proof {
                    lemma_spot(self.entries(), key@, *i as int);
                }
                Some(*i)
            },
            None => {
                proof {
                    if has_key(self.entries(), key@) {
                        let j = spot(self.entries(), key@);
                        assert(is_at(self.entries(), key@, j));
                        assert(self.keys@[j]@ == key@);
                    }
                }
                None
            },
        }
    }

    /// The key at a position.
    pub fn key(&self, i: usize) -> (r: &String)
        requires
            self.wf(),
            i < self.entries().len(),
        ensures
            r@ == self.entries()[i as int].0,
    {
        &self.keys[i]
    }

    /// The value at a position.
    pub fn value(&self, i: usize) -> (r: &V)
        requires
            self.wf(),
            i < self.entries().len(),
        ensures
            *r == self.entries()[i as int].1,
    {
        &self.values[i]
    }

    /// The value at a position, to be changed.
    pub fn value_mut(&mut self, i: usize) -> (r: &mut V)
        requires
            old(self).wf(),
            i < old(self).entries().len(),
        ensures
            *r == old(self).entries()[i as int].1,
            final(self).wf(),
            final(self).entries() == old(self).entries().update(
                i as int,
                (old(self).entries()[i as int].0, *final(r)),
            ),
    {
        &mut self.values[i]
    }

    /// Adds a key that the table does not have yet.
    pub fn insert(&mut self, key: String, value: V)
        requires
            old(self).wf(),
            !has_key(old(self).entries(), key@),
        ensures
            final(self).wf(),
            final(self).entries() == old(self).entries().push((key@, value)),
    {
        let ghost e0 = self.entries();
        let ghost keys0 = self.keys@;
        let n = self.values.len();
        let again = key.clone();
        self.index.insert(again, n);
        self.keys.push(key);
        self.values.push(value);
        proof {
            assert(self.entries() == e0.push((key@, value)));
            assert forall|i: int| 0 <= i < keys0.len() implies (#[trigger] keys0[i])@ != key@ by {
                assert(e0[i].0 == keys0[i]@);
                assert(!is_at(e0, key@, i));
            }
            assert forall|i: int| 0 <= i < self.keys@.len() implies self.index@.contains_key(
                (#[trigger] self.keys@[i])@,
            ) && self.index@[self.keys@[i]@] == i by {
                if i < n {
                    assert(self.keys@[i] == keys0[i]);
                }
            }
            assert forall|k: Seq<char>| #[trigger] self.index@.contains_key(k) implies
                self.index@[k] < self.keys@.len() && self.keys@[self.index@[k] as int]@ == k by {
                if k != key@ {
                    assert(keys0[self.index@[k] as int]@ == k);
                }
            }
        }
    }
}

impl<V> Keyed<V> {
    /// Stores a value for a key.
    pub fn store(&mut self, key: &str, value: V)
        requires
            old(self).wf(),
        ensures
            final(self).wf(),
            final(self).entries() == stored(old(self).entries(), key@, value),
    {
        match self.position(key) {
            Some(i) => {
                let slot = self.value_mut(i);
                *slot = value;
            },
            None => {
                self.insert(key.to_owned(), value);
            },
        }
    }
}

// ---------------------------------------------------------------------------
// Lists
// ---------------------------------------------------------------------------

/// Lists keyed by text.
pub struct Groups<T> {
    table: Keyed<Vec<T>>,
}

impl<T> Groups<T> {
    /// The table is in order.
    pub closed spec fn wf(self) -> bool {
        self.table.wf()
    }

    /// The keys with their lists, in the order in which the keys first came.
    pub closed spec fn lists(self) -> Seq<(Seq<char>, Seq<T>)> {
        self.table.entries().map_values(|e: (Seq<char>, Vec<T>)| (e.0, e.1@))
    }

    /// No key comes twice.
    pub proof fn lemma_distinct(self)
        requires
            self.wf(),
        ensures
            distinct(self.lists()),
    {
        self.table.lemma_distinct();
        let e = self.table.entries();
        let s = self.lists();
        assert forall|i: int, j: int| 0 <= i < j < s.len() implies (#[trigger] s[i]).0 != (
        #[trigger] s[j]).0 by {
            assert(e[i].0 != e[j].0);
        }
    }

    /// An empty table.
    pub fn new() -> (r: Groups<T>)
        ensures
            r.wf(),
            r.lists() == Seq::<(Seq<char>, Seq<T>)>::empty(),
    {
        let r = Groups { table: Keyed::new() };
        assert(r.lists() == Seq::<(Seq<char>, Seq<T>)>::empty());
        r
    }

    /// The number of keys.
    pub fn len(&self) -> (r: usize)
        ensures
            r == self.lists().len(),
    {
        self.table.len()
    }

    /// The key at a position.
    pub fn key(&self, i: usize) -> (r: &String)
        requires
            self.wf(),
            i < self.lists().len(),
        ensures
            r@ == self.lists()[i as int].0,
    {
        self.table.key(i)
    }

    /// The list at a position.
    pub fn list(&self, i: usize) -> (r: &Vec<T>)
        requires
            self.wf(),
            i < self.lists().len(),
        ensures
            r@ == self.lists()[i as int].1,
    {
        self.table.value(i)
    }

    /// Files an item under a key.
    pub fn file(&mut self, key: &str, item: T)
        requires
            old(self).wf(),
        ensures
            final(self).wf(),
            final(self).lists() == filed(old(self).lists(), key@, item),
    {
        let ghost e0 = self.table.entries();
        let ghost s0 = self.lists();
        proof {
            self.table.lemma_distinct();
            self.lemma_distinct();
        }
        match self.table.position(key) {
            Some(i) => {
                proof {
                    assert(is_at(s0, key@, i as int));
                    lemma_spot(s0, key@, i as int);
                }
                let list = self.table.value_mut(i);
                list.push(item);
                assert(self.lists() == s0.update(i as int, (key@, s0[i as int].1.push(item))));
            },
            None => {
                proof {
                    if has_key(s0, key@) {
                        let j = spot(s0, key@);
                        assert(is_at(s0, key@, j));
                        assert(is_at(e0, key@, j));
                    }
                }
                let mut list: Vec<T> = Vec::new();
                list.push(item);
                assert(list@ == seq![item]);
                self.table.insert(key.to_owned(), list);
                assert(self.lists() == s0.push((key@, seq![item])));
            },
        }
    }
}

// ---------------------------------------------------------------------------
// Counts
// ---------------------------------------------------------------------------

/// Counts keyed by text.
pub struct Counts {
    table: Keyed<u64>,
}

impl Counts {
    /// The table is in order.
    pub closed spec fn wf(self) -> bool {
        self.table.wf()
    }

    /// The keys with their counts, in the order in which the keys first came.
    pub closed spec fn tally(self) -> Seq<(Seq<char>, nat)> {
        self.table.entries().map_values(|e: (Seq<char>, u64)| (e.0, e.1 as nat))
    }

    /// No key comes twice.
    pub proof fn lemma_distinct(self)
        requires
            self.wf(),
        ensures
            distinct(self.tally()),
    {
        self.table.lemma_distinct();
        let e = self.table.entries();
        let s = self.tally();
        assert forall|i: int, j: int| 0 <= i < j < s.len() implies (#[trigger] s[i]).0 != (
        #[trigger] s[j]).0 by {
            assert(e[i].0 != e[j].0);
        }
    }

    /// An empty table.
    pub fn new() -> (r: Counts)
        ensures
            r.wf(),
            r.tally() == Seq::<(Seq<char>, nat)>::empty(),
    {
        let r = Counts { table: Keyed::new() };
        assert(r.tally() == Seq::<(Seq<char>, nat)>::empty());
        r
    }

    /// The number of keys.
    pub fn len(&self) -> (r: usize)
        ensures
            r == self.tally().len(),
    {
        self.table.len()
    }

    /// The key at a position.
    pub fn key(&self, i: usize) -> (r: &String)
        requires
            self.wf(),
            i < self.tally().len(),
        ensures
            r@ == self.tally()[i as int].0,
    {
        self.table.key(i)
    }

    /// The count at a position.
    pub fn count(&self, i: usize) -> (r: u64)
        requires
            self.wf(),
            i < self.tally().len(),
        ensures
            r == self.tally()[i as int].1,
    {
        *self.table.value(i)
    }

    /// The count of a key, 0 where it has none.
    pub fn get(&self, key: &str) -> (r: u64)
        requires
            self.wf(),
        ensures
            r == count_of(self.tally(), key@),
    {
        let ghost e = self.table.entries();
        let ghost s = self.tally();
        proof {
            self.lemma_distinct();
        }
        match self.table.position(key) {
            Some(i) => {
                proof {
                    assert(is_at(s, key@, i as int));
                    lemma_spot(s, key@, i as int);
                }
                *self.table.value(i)
            },
            None => {
                proof {
                    if has_key(s, key@) {
                        assert(is_at(s, key@, spot(s, key@)));
                        assert(is_at(e, key@, spot(s, key@)));
                    }
                }
                0
            },
        }
    }

    /// Adds to the count of a key.
    pub fn add_to(&mut self, key: &str, n: u64)
        requires
            old(self).wf(),
            count_sum(old(self).tally()) + n <= u64::MAX,
        ensures
            final(self).wf(),
            final(self).tally() == counted(old(self).tally(), key@, n as nat),
            count_sum(final(self).tally()) == count_sum(old(self).tally()) + n,
    {
        let ghost e0 = self.table.entries();
        let ghost s0 = self.tally();
        proof {
            self.table.lemma_distinct();
            self.lemma_distinct();
            lemma_counted_sum(s0, key@, n as nat);
        }
        match self.table.position(key) {
            Some(i) => {
                proof {
                    assert(is_at(s0, key@, i as int));
                    lemma_spot(s0, key@, i as int);
                    lemma_count_in_sum(s0, i as int);
                }
                let slot = self.table.value_mut(i);
                *slot = *slot + n;
                assert(self.tally() == s0.update(i as int, (key@, s0[i as int].1 + n as nat)));
            },
            None => {
                proof {
                    if has_key(s0, key@) {
                        let j = spot(s0, key@);
                        assert(is_at(s0, key@, j));
                        assert(is_at(e0, key@, j));
                    }
                }
                self.table.insert(key.to_owned(), n);
                assert(self.tally() == s0.push((key@, n as nat)));
            },
        }
    }
}

/// A count is at most the sum of all counts.
pub proof fn lemma_count_in_sum<K>(s: Seq<(K, nat)>, i: int)
    requires
        0 <= i < s.len(),
    ensures
        s[i].1 <= count_sum(s),
    decreases s.len(),
{
    if i < s.len() - 1 {
        lemma_count_in_sum(s.drop_last(), i);
    }
}

proof fn lemma_sum_update<K>(s: Seq<(K, nat)>, i: int, e: (K, nat))
    requires
        0 <= i < s.len(),
    ensures
        count_sum(s.update(i, e)) == count_sum(s) - s[i].1 + e.1,
    decreases s.len(),
{
    if i < s.len() - 1 {
        lemma_sum_update(s.drop_last(), i, e);
        assert(s.update(i, e).drop_last() == s.drop_last().update(i, e));
    } else {
        assert(s.update(i, e).drop_last() == s.drop_last());
    }
}

/// Adding to one count adds as much to the sum of all counts.
pub proof fn lemma_counted_sum<K>(s: Seq<(K, nat)>, key: K, n: nat)
    ensures
        count_sum(counted(s, key, n)) == count_sum(s) + n,
{
    if has_key(s, key) {
        let i = spot(s, key);
        assert(is_at(s, key, i));
        lemma_sum_update(s, i, (key, s[i].1 + n));
    } else {
        assert(s.push((key, n)).drop_last() == s);
    }
}

// ---------------------------------------------------------------------------
// Laws
// ---------------------------------------------------------------------------

proof fn lemma_filed_distinct<T>(s: Seq<(Seq<char>, Seq<T>)>, key: Seq<char>, item: T)
    requires
        distinct(s),
    ensures
        distinct(filed(s, key, item)),
{
    let r = filed(s, key, item);
    if has_key(s, key) {
        let w = spot(s, key);
        assert(is_at(s, key, w));
        assert forall|i: int, j: int| 0 <= i < j < r.len() implies (#[trigger] r[i]).0 != (
        #[trigger] r[j]).0 by {
            assert(s[i].0 != s[j].0);
        }
    } else {
        assert forall|i: int, j: int| 0 <= i < j < r.len() implies (#[trigger] r[i]).0 != (
        #[trigger] r[j]).0 by {
            assert(!is_at(s, key, i));
            if j < s.len() {
                assert(s[i].0 != s[j].0);
            }
        }
    }
}

/// Adding to one count leaves every key single and every other count as it was.
pub proof fn lemma_counted<K>(s: Seq<(K, nat)>, key: K, n: nat, other: K)
    requires
        distinct(s),
    ensures
        distinct(counted(s, key, n)),
        count_of(counted(s, key, n), other) == count_of(s, other) + if key == other {
            n
        } else {
            0
        },
{
    let r = counted(s, key, n);
    if has_key(s, key) {
        let w = spot(s, key);
        assert(is_at(s, key, w));
        assert forall|i: int, j: int| 0 <= i < j < r.len() implies (#[trigger] r[i]).0 != (
        #[trigger] r[j]).0 by {
            assert(s[i].0 != s[j].0);
        }
        assert(is_at(r, key, w));
        lemma_spot(r, key, w);
    } else {
        assert forall|i: int, j: int| 0 <= i < j < r.len() implies (#[trigger] r[i]).0 != (
        #[trigger] r[j]).0 by {
            assert(!is_at(s, key, i));
            if j < s.len() {
                assert(s[i].0 != s[j].0);
            }
        }
        assert(is_at(r, key, s.len() as int));
        lemma_spot(r, key, s.len() as int);
    }
    if key != other {
        if has_key(s, other) {
            let v = spot(s, other);
            assert(is_at(s, other, v));
            assert(is_at(r, other, v));
            lemma_spot(r, other, v);
        }
        if has_key(r, other) {
            let v = spot(r, other);
            assert(is_at(r, other, v));
            assert(is_at(s, other, v));
            lemma_spot(s, other, v);
        }
    }
}

/// Counting keys one after the other adds to each key's count how often it comes, and to the sum
/// of all counts how many keys there are.
pub proof fn law_tallied_onto<K>(base: Seq<(K, nat)>, keys: Seq<K>, key: K)
    requires
        distinct(base),
    ensures
        distinct(tallied_onto(base, keys)),
        count_of(tallied_onto(base, keys), key) == count_of(base, key) + times(keys, key),
        count_sum(tallied_onto(base, keys)) == count_sum(base) + keys.len(),
    decreases keys.len(),
{
    if keys.len() > 0 {
        law_tallied_onto(base, keys.drop_last(), key);
        lemma_counted(tallied_onto(base, keys.drop_last()), keys.last(), 1, key);
        lemma_counted_sum(tallied_onto(base, keys.drop_last()), keys.last(), 1);
    }
}

/// Counting keys in two goes is counting them in one.
pub proof fn lemma_tallied_split<K>(base: Seq<(K, nat)>, a: Seq<K>, b: Seq<K>)
    ensures
        tallied_onto(tallied_onto(base, a), b) == tallied_onto(base, a + b),
    decreases b.len(),
{
    if b.len() == 0 {
        assert(a + b == a);
    } else {
        lemma_tallied_split(base, a, b.drop_last());
        assert((a + b).drop_last() == a + b.drop_last());
        assert((a + b).last() == b.last());
    }
}

/// A tally counts every key as often as it comes.
pub proof fn law_tallied<K>(keys: Seq<K>, key: K)
    ensures
        distinct(tallied(keys)),
        count_of(tallied(keys), key) == times(keys, key),
        count_sum(tallied(keys)) == keys.len(),
{
    let none = Seq::<(K, nat)>::empty();
    if has_key(none, key) {
        assert(is_at(none, key, spot(none, key)));
    }
    law_tallied_onto(none, keys, key);
}

/// A tally has only keys that come.
pub proof fn lemma_tallied_positive<K>(keys: Seq<K>, i: int)
    requires
        0 <= i < tallied(keys).len(),
    ensures
        tallied(keys)[i].1 > 0,
    decreases keys.len(),
{
    if keys.len() > 0 {
        let rest = tallied(keys.drop_last());
        assert(tallied(keys) == counted(rest, keys.last(), 1));
        if has_key(rest, keys.last()) {
            assert(is_at(rest, keys.last(), spot(rest, keys.last())));
        }
        if i < rest.len() {
            lemma_tallied_positive(keys.drop_last(), i);
        }
    }
}

/// A key comes at least once exactly when it is among the keys.
pub proof fn lemma_times<K>(keys: Seq<K>, key: K)
    ensures
        times(keys, key) > 0 <==> keys.contains(key),
    decreases keys.len(),
{
    if keys.len() > 0 {
        lemma_times(keys.drop_last(), key);
        let rest = keys.drop_last();
        if rest.contains(key) {
            let i = choose|i: int| 0 <= i < rest.len() && rest[i] == key;
            assert(keys[i] == key);
        }
        if keys.last() == key {
            assert(keys[keys.len() - 1] == key);
        }
        if keys.contains(key) && keys.last() != key {
            let i = choose|i: int| 0 <= i < keys.len() && keys[i] == key;
            assert(rest[i] == key);
        }
    }
}

/// How often a key comes adds up over the parts of a sequence.
pub proof fn lemma_times_concat<K>(a: Seq<K>, b: Seq<K>, key: K)
    ensures
        times(a + b, key) == times(a, key) + times(b, key),
    decreases b.len(),
{
    if b.len() == 0 {
        assert(a + b == a);
    } else {
        lemma_times_concat(a, b.drop_last(), key);
        assert((a + b).drop_last() == a + b.drop_last());
        assert((a + b).last() == b.last());
    }
}

proof fn lemma_tally_entry<K>(keys: Seq<K>, e: (K, nat))
    ensures
        tallied(keys).contains(e) <==> e.1 > 0 && times(keys, e.0) == e.1,
{
    let t = tallied(keys);
    law_tallied(keys, e.0);
    if t.contains(e) {
        let i = choose|i: int| 0 <= i < t.len() && t[i] == e;
        assert(is_at(t, e.0, i));
        lemma_spot(t, e.0, i);
        lemma_tallied_positive(keys, i);
    }
    if e.1 > 0 && times(keys, e.0) == e.1 {
        let i = spot(t, e.0);
        assert(is_at(t, e.0, i));
        assert(t[i] == e);
    }
}

/// With no key twice, no entry comes twice.
pub proof fn lemma_distinct_entries<K, V>(s: Seq<(K, V)>)
    requires
        distinct(s),
    ensures
        s.no_duplicates(),
{
    assert forall|i: int, j: int| 0 <= i < s.len() && 0 <= j < s.len() && i != j implies s[i]
        != s[j] by {
        if i < j {
            assert(s[i].0 != s[j].0);
        } else {
            assert(s[j].0 != s[i].0);
        }
    }
}

/// Where every key comes as often in one sequence as in another, their tallies have the same
/// entries.
pub proof fn law_tallies_agree<K>(a: Seq<K>, b: Seq<K>)
    requires
        forall|key: K| #[trigger] times(a, key) == times(b, key),
    ensures
        tallied(a).to_multiset() == tallied(b).to_multiset(),
        tallied(a).len() == tallied(b).len(),
        forall|key: K| #[trigger] count_of(tallied(a), key) == count_of(tallied(b), key),
{
    assert forall|key: K| #[trigger] count_of(tallied(a), key) == count_of(tallied(b), key) by {
        law_tallied(a, key);
        law_tallied(b, key);
        assert(times(a, key) == times(b, key));
    }
    assert forall|e: (K, nat)| #[trigger] tallied(a).contains(e) <==> tallied(b).contains(e) by {
        lemma_tally_entry(a, e);
        lemma_tally_entry(b, e);
        assert(times(a, e.0) == times(b, e.0));
    }
    if tallied(a).len() > 0 || tallied(b).len() > 0 {
        let key = if tallied(a).len() > 0 {
            tallied(a)[0].0
        } else {
            tallied(b)[0].0
        };
        law_tallied(a, key);
        law_tallied(b, key);
    }
    lemma_distinct_entries(tallied(a));
    lemma_distinct_entries(tallied(b));
    lemma_same_values(tallied(a), tallied(b));
}

/// Filing items one after the other makes a list for exactly the keys that came, and each list
/// holds what was filed under its key, in order.
pub proof fn law_filed_lists<T>(pairs: Seq<(Seq<char>, T)>, key: Seq<char>)
    ensures
        distinct(filed_all(pairs)),
        has_key(filed_all(pairs), key) <==> items_under(pairs, key).len() > 0,
        has_key(filed_all(pairs), key) ==> filed_all(pairs)[spot(filed_all(pairs), key)].1
            == items_under(pairs, key),
    decreases pairs.len(),
{
    if pairs.len() > 0 {
        let s = filed_all(pairs.drop_last());
        let (k, item) = pairs.last();
        let r = filed_all(pairs);
        law_filed_lists(pairs.drop_last(), key);
        law_filed_lists(pairs.drop_last(), k);
        lemma_filed_distinct(s, k, item);
        if has_key(s, k) {
            let w = spot(s, k);
            assert(is_at(s, k, w));
            assert(is_at(r, k, w));
            lemma_spot(r, k, w);
        } else {
            assert(is_at(r, k, s.len() as int));
            lemma_spot(r, k, s.len() as int);
            assert(seq![item] == Seq::<T>::empty().push(item));
        }
        if key != k {
            if has_key(s, key) {
                let v = spot(s, key);
                assert(is_at(s, key, v));
                assert(is_at(r, key, v));
                lemma_spot(r, key, v);
            }
            if has_key(r, key) {
                let v = spot(r, key);
                assert(is_at(r, key, v));
                assert(is_at(s, key, v));
                lemma_spot(s, key, v);
            }
        }
    }
}

/// Filing pairs in two goes is filing them in one.
pub proof fn lemma_filed_split<T>(a: Seq<(Seq<char>, T)>, b: Seq<(Seq<char>, T)>)
    ensures
        filed_onto(filed_all(a), b) == filed_all(a + b),
    decreases b.len(),
{
    if b.len() == 0 {
        assert(a + b == a);
    } else {
        lemma_filed_split(a, b.drop_last());
        assert((a + b).drop_last() == a + b.drop_last());
        assert((a + b).last() == b.last());
    }
}

/// Filing pairs makes the lists longer by their number in all.
pub proof fn law_filed_onto_count<T>(
    base: Seq<(Seq<char>, Seq<T>)>,
    pairs: Seq<(Seq<char>, T)>,
)
    ensures
        item_count(filed_onto(base, pairs)) == item_count(base) + pairs.len(),
    decreases pairs.len(),
{
    if pairs.len() > 0 {
        law_filed_onto_count(base, pairs.drop_last());
        law_filed_count(filed_onto(base, pairs.drop_last()), pairs.last().0, pairs.last().1);
    }
}

/// Filing an item and then looking at one side of all items is filing what is seen there.
pub proof fn lemma_filed_seen<T, U>(
    s: Seq<(Seq<char>, Seq<T>)>,
    key: Seq<char>,
    item: T,
    f: spec_fn(T) -> U,
)
    requires
        distinct(s),
    ensures
        lists_seen(filed(s, key, item), f) == filed(lists_seen(s, f), key, f(item)),
{
    let v = lists_seen(s, f);
    assert(distinct(v)) by {
        assert forall|i: int, j: int| 0 <= i < j < v.len() implies (#[trigger] v[i]).0 != (
        #[trigger] v[j]).0 by {
            assert(s[i].0 != s[j].0);
        }
    }
    if has_key(s, key) {
        let i = spot(s, key);
        assert(is_at(s, key, i));
        assert(is_at(v, key, i));
        lemma_spot(v, key, i);
        assert(s[i].1.push(item).map_values(f) == s[i].1.map_values(f).push(f(item)));
    } else {
        if has_key(v, key) {
            assert(is_at(v, key, spot(v, key)));
            assert(is_at(s, key, spot(v, key)));
        }
        assert(seq![item].map_values(f) == seq![f(item)]);
    }
    assert(lists_seen(filed(s, key, item), f) == filed(v, key, f(item)));
}

/// Looking at one side of all items leaves their number as it is.
pub proof fn lemma_count_seen<T, U>(s: Seq<(Seq<char>, Seq<T>)>, f: spec_fn(T) -> U)
    ensures
        item_count(lists_seen(s, f)) == item_count(s),
    decreases s.len(),
{
    if s.len() > 0 {
        lemma_count_seen(s.drop_last(), f);
        assert(lists_seen(s, f).drop_last() == lists_seen(s.drop_last(), f));
    }
}

/// Filing an item makes the lists longer by one in all.
pub proof fn law_filed_count<T>(s: Seq<(Seq<char>, Seq<T>)>, key: Seq<char>, item: T)
    ensures
        item_count(filed(s, key, item)) == item_count(s) + 1,
{
    if has_key(s, key) {
        let i = spot(s, key);
        assert(is_at(s, key, i));
        lemma_item_count_update(s, i, (key, s[i].1.push(item)));
    } else {
        assert(s.push((key, seq![item])).drop_last() == s);
    }
}

proof fn lemma_item_count_update<T>(
    s: Seq<(Seq<char>, Seq<T>)>,
    i: int,
    e: (Seq<char>, Seq<T>),
)
    requires
        0 <= i < s.len(),
    ensures
        item_count(s.update(i, e)) == item_count(s) - s[i].1.len() + e.1.len(),
    decreases s.len(),
{
    if i < s.len() - 1 {
        lemma_item_count_update(s.drop_last(), i, e);
        assert(s.update(i, e).drop_last() == s.drop_last().update(i, e));
    } else {
        assert(s.update(i, e).drop_last() == s.drop_last());
    }
}

/// How often a key comes is how many of the keys are that key.
pub proof fn law_times_counted<K>(keys: Seq<K>, key: K)
    ensures
        times(keys, key) == keys.filter(|k: K| k == key).len(),
    decreases keys.len(),
{
    reveal(Seq::filter);
    if keys.len() > 0 {
        law_times_counted(keys.drop_last(), key);
    }
}

/// What was filed under a key is what came with that key, in the order in which it came.
pub proof fn law_items_picked<T>(pairs: Seq<(Seq<char>, T)>, key: Seq<char>)
    ensures
        items_under(pairs, key) == pairs.filter(|p: (Seq<char>, T)| p.0 == key).map_values(
            |p: (Seq<char>, T)| p.1,
        ),
    decreases pairs.len(),
{
    reveal(Seq::filter);
    let mine = |p: (Seq<char>, T)| p.0 == key;
    let item = |p: (Seq<char>, T)| p.1;
    if pairs.len() > 0 {
        let rest = pairs.drop_last();
        law_items_picked(rest, key);
        if pairs.last().0 == key {
            assert(pairs.filter(mine) == rest.filter(mine).push(pairs.last()));
            assert(pairs.filter(mine).map_values(item) == rest.filter(mine).map_values(item).push(
                pairs.last().1,
            ));
        }
    } else {
        assert(items_under(pairs, key) == pairs.filter(mine).map_values(item));
    }
}

/// What was stored for a key is found under it, and every other key keeps its value.
pub proof fn law_stored_found<K, V>(s: Seq<(K, V)>, key: K, value: V, other: K)
    requires
        distinct(s),
        other != key,
    ensures
        has_key(stored(s, key, value), key),
        stored(s, key, value)[spot(stored(s, key, value), key)].1 == value,
        has_key(stored(s, key, value), other) <==> has_key(s, other),
        has_key(s, other) ==> stored(s, key, value)[spot(stored(s, key, value), other)].1
            == s[spot(s, other)].1,
        distinct(stored(s, key, value)),
{
    let r = stored(s, key, value);
    let w = if has_key(s, key) {
        spot(s, key)
    } else {
        s.len() as int
    };
    if has_key(s, key) {
        assert(is_at(s, key, w));
    }
    assert(distinct(r)) by {
        assert forall|i: int, j: int| 0 <= i < j < r.len() implies (#[trigger] r[i]).0 != (
        #[trigger] r[j]).0 by {
            if j < s.len() {
                assert(s[i].0 != s[j].0);
            } else {
                assert(!is_at(s, key, i));
            }
        }
    }
    assert(is_at(r, key, w));
    lemma_spot(r, key, w);
    if has_key(s, other) {
        let v = spot(s, other);
        assert(is_at(s, other, v));
        assert(is_at(r, other, v));
        lemma_spot(r, other, v);
    }
    if has_key(r, other) {
        let v = spot(r, other);
        assert(is_at(r, other, v));
        assert(is_at(s, other, v));
    }
}

} // verus!
