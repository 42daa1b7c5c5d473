//! How evenly the times between events are spread: times of half a second are held for the same.

use crate::keyed::{
    count_of, count_sum, counted, has_key, is_at, law_tallied, law_tallied_onto,
    lemma_count_in_sum, lemma_counted, lemma_spot, spot, tallied, tallied_onto, times,
};
use crate::ratio::Ratio;
use std::collections::HashMap;
use vstd::prelude::*;

verus! {

broadcast use vstd::std_specs::hash::group_hash_axioms;

/// The half second, counted from 0, to which a time in milliseconds is nearest.
pub open spec fn half_second(ms: u64) -> nat {
    ((ms + 250) / 500) as nat
}

/// The half seconds to which times are nearest.
pub open spec fn half_seconds(s: Seq<u64>) -> Seq<nat> {
    s.map_values(|ms: u64| half_second(ms))
}

/// The half second to which a time in milliseconds is nearest.
pub fn dwell_bucket(ms: u64) -> (r: u64)
    ensures
        r == half_second(ms),
{
    ((ms as u128 + 250) / 500) as u64
}

/// The counts of a table, without its keys.
pub open spec fn counts_only<K>(s: Seq<(K, nat)>) -> Seq<nat> {
    s.map_values(|e: (K, nat)| e.1)
}

/// How many times are nearest to the same half second, for each half second that comes, in the
/// order of first coming.
pub fn bucket_counts(dwell_ms: &Vec<u64>) -> (r: Vec<usize>)
    ensures
        r@.map_values(|n: usize| n as nat) == counts_only(tallied(half_seconds(dwell_ms@))),
{
    let ghost all = half_seconds(dwell_ms@);
    let ghost none = Seq::<(nat, nat)>::empty();
    let mut place: HashMap<u64, usize> = HashMap::new();
    let mut r: Vec<usize> = Vec::new();
    let ghost mut table: Seq<(nat, nat)> = none;
    let mut i: usize = 0;
    assert(all.take(0) == Seq::<nat>::empty());
    while i < dwell_ms.len()
        invariant
            all == half_seconds(dwell_ms@),
            none == Seq::<(nat, nat)>::empty(),
            i <= dwell_ms@.len(),
            table == tallied_onto(none, all.take(i as int)),
            r@.len() == table.len(),
            forall|k: int| 0 <= k < r@.len() ==> #[trigger] r@[k] == table[k].1,
            forall|b: u64| #[trigger]
                place@.contains_key(b) ==> is_at(table, b as nat, place@[b] as int),
            forall|k: int|
                0 <= k < table.len() ==> (#[trigger] table[k]).0 <= u64::MAX
                    && place@.contains_key(table[k].0 as u64),
        decreases dwell_ms@.len() - i,
    {
        let b = dwell_bucket(dwell_ms[i]);
        let ghost table0 = table;
        proof {
            assert(all.take(i + 1).drop_last() == all.take(i as int));
            assert(all.take(i + 1).last() == b as nat);
            law_tallied_onto(none, all.take(i as int), b as nat);
            lemma_counted(table0, b as nat, 1, b as nat);
            table = counted(table0, b as nat, 1);
        }
        match place.get(&b) {
            Some(at) => {
                let k = *at;
                proof {
                    assert(is_at(table0, b as nat, k as int));
                    lemma_spot(table0, b as nat, k as int);
                    lemma_count_in_sum(table0, k as int);
                }
                let n = r[k];
                r.set(k, n + 1);
                proof {
                    assert forall|c: u64| #[trigger] place@.contains_key(c) implies is_at(
                        table,
                        c as nat,
                        place@[c] as int,
                    ) by {
                        assert(is_at(table0, c as nat, place@[c] as int));
                    }
                    assert forall|j: int| 0 <= j < table.len() implies (#[trigger] table[j]).0
                        <= u64::MAX && place@.contains_key(table[j].0 as u64) by {
                        assert(table[j].0 == table0[j].0);
                    }
                }
            },
            None => {
                proof {
                    if has_key(table0, b as nat) {
                        let j = spot(table0, b as nat);
                        assert(is_at(table0, b as nat, j));
                        assert(place@.contains_key(table0[j].0 as u64));
                    }
                }
                let ghost place0 = place@;
                let at = r.len();
                place.insert(b, at);
                r.push(1);
                proof {
                    assert(table == table0.push((b as nat, 1)));
                    assert forall|c: u64| #[trigger] place@.contains_key(c) implies is_at(
                        table,
                        c as nat,
                        place@[c] as int,
                    ) by {
                        if c != b {
                            assert(place0.contains_key(c));
                            assert(is_at(table0, c as nat, place0[c] as int));
                        }
                    }
                    assert forall|j: int| 0 <= j < table.len() implies (#[trigger] table[j]).0
                        <= u64::MAX && place@.contains_key(table[j].0 as u64) by {
                        if j < table0.len() {
                            assert(table[j].0 == table0[j].0);
                        }
                    }
                }
            },
        }
        i += 1;
    }
    assert(all.take(i as int) == all);
    r
}

/// The largest number in a list, 0 where there is none.
pub open spec fn greatest(s: Seq<nat>) -> nat
    decreases s.len(),
{
    if s.len() == 0 {
        0
    } else if greatest(s.drop_last()) < s.last() {
        s.last()
    } else {
        greatest(s.drop_last())
    }
}

/// The share of the times that are nearest to the same half second, for the half second with the
/// most of them.
pub fn repeat_ratio(dwell_ms: &Vec<u64>) -> (r: Ratio)
    ensures
        r.num == greatest(counts_only(tallied(half_seconds(dwell_ms@)))),
        r.den == dwell_ms@.len(),
{
    let counts = bucket_counts(dwell_ms);
    let ghost s = counts@.map_values(|n: usize| n as nat);
    let mut most: usize = 0;
    let mut i: usize = 0;
    assert(s.take(0) == Seq::<nat>::empty());
    while i < counts.len()
        invariant
            s == counts@.map_values(|n: usize| n as nat),
            i <= counts@.len(),
            most == greatest(s.take(i as int)),
        decreases counts@.len() - i,
    {
        assert(s.take(i + 1).drop_last() == s.take(i as int));
        assert(s.take(i + 1).last() == counts@[i as int] as nat);
        if most < counts[i] {
            most = counts[i];
        }
        i += 1;
    }
    assert(s.take(i as int) == s);
    Ratio { num: most as u64, den: dwell_ms.len() as u64 }
}

// ---------------------------------------------------------------------------
// Laws
// ---------------------------------------------------------------------------

/// A half second is nearest to a time: they are at most a quarter of a second apart.
pub proof fn law_half_second_near(ms: u64)
    ensures
        500 * half_second(ms) - 250 <= ms < 500 * half_second(ms) + 250,
{
}

proof fn lemma_greatest_bound<K>(s: Seq<(K, nat)>)
    ensures
        greatest(counts_only(s)) <= count_sum(s),
    decreases s.len(),
{
    if s.len() > 0 {
        assert(counts_only(s).drop_last() == counts_only(s.drop_last()));
        lemma_greatest_bound(s.drop_last());
    }
}

/// The share of the most frequent half second is at most 1.
pub proof fn law_repeat_at_most_one(dwell_ms: Seq<u64>)
    ensures
        greatest(counts_only(tallied(half_seconds(dwell_ms)))) <= dwell_ms.len(),
{
    let none = Seq::<(nat, nat)>::empty();
    lemma_greatest_bound(tallied(half_seconds(dwell_ms)));
    law_tallied_onto(none, half_seconds(dwell_ms), 0);
}

/// The greatest of a list is at least every number in it, and is one of them.
pub proof fn law_greatest(s: Seq<nat>)
    ensures
        forall|i: int| 0 <= i < s.len() ==> #[trigger] s[i] <= greatest(s),
        s.len() > 0 ==> exists|i: int| 0 <= i < s.len() && #[trigger] s[i] == greatest(s),
        s.len() == 0 ==> greatest(s) == 0,
    decreases s.len(),
{
    if s.len() > 0 {
        let rest = s.drop_last();
        law_greatest(rest);
        assert forall|i: int| 0 <= i < s.len() implies #[trigger] s[i] <= greatest(s) by {
            if i < rest.len() {
                assert(rest[i] == s[i]);
            }
        }
        if greatest(rest) < s.last() || rest.len() == 0 {
            assert(s[s.len() - 1] == greatest(s));
        } else {
            let i = choose|i: int| 0 <= i < rest.len() && #[trigger] rest[i] == greatest(rest);
            assert(s[i] == greatest(s));
        }
    }
}

/// How many of the times are at most a quarter of a second below a half second, or less than that
/// above it, so that it is the nearest to them.
pub open spec fn nearest_to(dwell_ms: Seq<u64>, b: nat) -> nat {
    dwell_ms.filter(|ms: u64| 500 * b - 250 <= ms < 500 * b + 250).len()
}

/// No half second is nearest to more of the times than the most frequent one, and where there are
/// times, some half second is nearest to that many.
pub proof fn law_most_frequent(dwell_ms: Seq<u64>, b: nat)
    ensures
        nearest_to(dwell_ms, b) <= greatest(counts_only(tallied(half_seconds(dwell_ms)))),
        dwell_ms.len() > 0 ==> exists|c: nat|
#[trigger]
            nearest_to(dwell_ms, c) == greatest(counts_only(tallied(half_seconds(dwell_ms)))),
{
    let all = half_seconds(dwell_ms);
    let t = tallied(all);
    let counts = counts_only(t);
    law_greatest(counts);
    lemma_near_counted(dwell_ms, b);
    law_tallied(all, b);
    if has_key(t, b) {
        let i = spot(t, b);
        assert(is_at(t, b, i));
        assert(counts[i] == count_of(t, b));
    }
    if dwell_ms.len() > 0 {
        if t.len() == 0 {
            assert(count_sum(t) == 0);
        }
        let i = choose|i: int| 0 <= i < counts.len() && #[trigger] counts[i] == greatest(counts);
        let c = t[i].0;
        law_tallied(all, c);
        assert(is_at(t, c, i));
        lemma_spot(t, c, i);
        lemma_near_counted(dwell_ms, c);
        assert(nearest_to(dwell_ms, c) == greatest(counts));
    }
}

proof fn lemma_near_counted(dwell_ms: Seq<u64>, b: nat)
    ensures
        nearest_to(dwell_ms, b) == times(half_seconds(dwell_ms), b),
    decreases dwell_ms.len(),
{
    reveal(Seq::filter);
    if dwell_ms.len() > 0 {
        lemma_near_counted(dwell_ms.drop_last(), b);
        assert(half_seconds(dwell_ms).drop_last() == half_seconds(dwell_ms.drop_last()));
        assert(half_seconds(dwell_ms).last() == half_second(dwell_ms.last()));
    }
}

} // verus!
