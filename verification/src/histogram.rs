//! Counting how many values fall into each column.

use vstd::prelude::*;

verus! {

/// How often `x` stands in `s`.
pub open spec fn occurrences(s: Seq<int>, x: int) -> nat
    decreases s.len(),
{
    if s.len() == 0 {
        0
    } else {
        occurrences(s.drop_last(), x) + if s.last() == x {
            1nat
        } else {
            0nat
        }
    }
}

/// How often the numbers below `n` stand in `s`, all together.
pub open spec fn occurrences_below(s: Seq<int>, n: nat) -> nat
    decreases n,
{
    if n == 0 {
        0
    } else {
        occurrences_below(s, (n - 1) as nat) + occurrences(s, n - 1)
    }
}

/// The columns of a list of values.
pub open spec fn columns(s: Seq<usize>) -> Seq<int> {
    s.map_values(|x: usize| x as int)
}

/// The columns of a list of values, where everything behind the last of `n` columns counts in it.
pub open spec fn capped(s: Seq<usize>, n: nat) -> Seq<int> {
    s.map_values(
        |x: usize|
            if x < n {
                x as int
            } else {
                n - 1
            },
    )
}

/// No number stands in a sequence more often than the sequence is long.
pub proof fn lemma_occurrences_bound(s: Seq<int>, x: int)
    ensures
        occurrences(s, x) <= s.len(),
    decreases s.len(),
{
    if s.len() > 0 {
        lemma_occurrences_bound(s.drop_last(), x);
    }
}

/// How many of the values fall into each of `n` columns. What is behind the last column is left
/// out.
pub fn tally(values: &Vec<usize>, n: usize) -> (r: Vec<usize>)
    ensures
        r@.len() == n,
        forall|b: int| 0 <= b < n ==> #[trigger] r@[b] == occurrences(columns(values@), b),
{
    let mut r: Vec<usize> = Vec::new();
    let mut k: usize = 0;
    while k < n
        invariant
            k <= n,
            r@.len() == k,
            forall|b: int| 0 <= b < k ==> #[trigger] r@[b] == 0,
        decreases n - k,
    {
        r.push(0);
        k += 1;
    }
    let ghost all = columns(values@);
    let mut i: usize = 0;
    assert(all.take(0) == Seq::<int>::empty());
    while i < values.len()
        invariant
            i <= values@.len(),
            all == columns(values@),
            r@.len() == n,
            forall|b: int| 0 <= b < n ==> #[trigger] r@[b] == occurrences(all.take(i as int), b),
        decreases values@.len() - i,
    {
        assert(all.take(i + 1).drop_last() == all.take(i as int));
        let c = values[i];
        if c < n {
            proof {
                lemma_occurrences_bound(all.take(i as int), c as int);
            }
            let before = r[c];
            r.set(c, before + 1);
        }
        i += 1;
    }
    assert(all.take(i as int) == all);
    r
}

/// How many of the values fall into each of `n` columns. What is behind the last column counts in
/// it.
pub fn tally_capped(values: &Vec<usize>, n: usize) -> (r: Vec<usize>)
    requires
        n > 0,
    ensures
        r@.len() == n,
        forall|b: int| 0 <= b < n ==> #[trigger] r@[b] == occurrences(capped(values@, n as nat), b),
{
    let mut inside: Vec<usize> = Vec::new();
    let mut i: usize = 0;
    while i < values.len()
        invariant
            n > 0,
            i <= values@.len(),
            columns(inside@) == capped(values@, n as nat).take(i as int),
        decreases values@.len() - i,
    {
        let c = if values[i] < n {
            values[i]
        } else {
            n - 1
        };
        let ghost inside0 = inside@;
        inside.push(c);
        assert(columns(inside@) == columns(inside0).push(c as int));
        assert(capped(values@, n as nat).take(i + 1) == capped(values@, n as nat).take(
            i as int,
        ).push(capped(values@, n as nat)[i as int]));
        i += 1;
    }
    assert(capped(values@, n as nat).take(i as int) == capped(values@, n as nat));
    tally(&inside, n)
}

/// The largest of the counts, 0 where there are none.
pub open spec fn largest(s: Seq<usize>) -> nat
    decreases s.len(),
{
    if s.len() == 0 {
        0
    } else if largest(s.drop_last()) < s.last() {
        s.last() as nat
    } else {
        largest(s.drop_last())
    }
}

/// The largest of the counts, 0 where there are none.
pub fn max_count(counts: &Vec<usize>) -> (r: usize)
    ensures
        r == largest(counts@),
{
    let mut r: usize = 0;
    let mut i: usize = 0;
    assert(counts@.take(0) == Seq::<usize>::empty());
    while i < counts.len()
        invariant
            i <= counts@.len(),
            r == largest(counts@.take(i as int)),
        decreases counts@.len() - i,
    {
        assert(counts@.take(i + 1).drop_last() == counts@.take(i as int));
        if r < counts[i] {
            r = counts[i];
        }
        i += 1;
    }
    assert(counts@.take(i as int) == counts@);
    r
}

/// Where the axis of a histogram ends: above the largest count by a tenth of it, and by at least
/// one.
pub open spec fn top_of(counts: Seq<usize>) -> nat {
    largest(counts) + if largest(counts) < 10 {
        1
    } else {
        largest(counts) / 10
    }
}

/// Where the axis of a histogram ends. It must be countable in 64 bits.
pub fn axis_top(counts: &Vec<usize>) -> (r: u64)
    requires
        top_of(counts@) <= u64::MAX,
    ensures
        r == top_of(counts@),
{
    let most = max_count(counts) as u64;
    let tenth = most / 10;
    if tenth < 1 {
        most + 1
    } else {
        most + tenth
    }
}

/// When every value falls into one of the columns, the columns add up to the number of values.
pub proof fn law_columns_complete(s: Seq<int>, n: nat)
    requires
        forall|i: int| 0 <= i < s.len() ==> 0 <= #[trigger] s[i] < n,
    ensures
        occurrences_below(s, n) == s.len(),
    decreases s.len(),
{
    if s.len() == 0 {
        lemma_none_below(s, n);
    } else {
        assert forall|i: int| 0 <= i < s.drop_last().len() implies 0 <= #[trigger] s.drop_last()[i]
            < n by {
            assert(s[i] == s.drop_last()[i]);
        }
        law_columns_complete(s.drop_last(), n);
        lemma_one_more_below(s, n);
        assert(s[s.len() - 1] == s.last());
    }
}

/// The largest count is at least every count, and is one of them.
pub proof fn law_largest(s: Seq<usize>)
    ensures
        forall|i: int| 0 <= i < s.len() ==> #[trigger] s[i] <= largest(s),
        s.len() > 0 ==> exists|i: int| 0 <= i < s.len() && #[trigger] s[i] == largest(s),
    decreases s.len(),
{
    if s.len() > 0 {
        let rest = s.drop_last();
        law_largest(rest);
        assert forall|i: int| 0 <= i < s.len() implies #[trigger] s[i] <= largest(s) by {
            if i < rest.len() {
                assert(rest[i] == s[i]);
            }
        }
        if largest(rest) < s.last() || rest.len() == 0 {
            assert(s[s.len() - 1] == largest(s));
        } else {
            let i = choose|i: int| 0 <= i < rest.len() && #[trigger] rest[i] == largest(rest);
            assert(s[i] == largest(s));
        }
    }
}

/// Every count stays below the end of the axis.
pub proof fn law_counts_below_top(counts: Seq<usize>, i: int)
    requires
        0 <= i < counts.len(),
    ensures
        counts[i] < top_of(counts),
{
    law_largest(counts);
}

proof fn lemma_none_below(s: Seq<int>, n: nat)
    requires
        s.len() == 0,
    ensures
        occurrences_below(s, n) == 0,
    decreases n,
{
    if n > 0 {
        lemma_none_below(s, (n - 1) as nat);
    }
}

proof fn lemma_one_more_below(s: Seq<int>, n: nat)
    requires
        s.len() > 0,
        s.last() >= 0,
    ensures
        occurrences_below(s, n) == occurrences_below(s.drop_last(), n) + if s.last() < n {
            1nat
        } else {
            0nat
        },
    decreases n,
{
    if n > 0 {
        lemma_one_more_below(s, (n - 1) as nat);
    }
}

/// How often a number stands in a sequence is how many of its places hold it.
pub proof fn law_occurrences_counted(s: Seq<int>, x: int)
    ensures
        occurrences(s, x) == s.filter(|y: int| y == x).len(),
    decreases s.len(),
{
    reveal(Seq::filter);
    if s.len() > 0 {
        law_occurrences_counted(s.drop_last(), x);
    }
}

/// A value stands in the column of its own number, and one that is behind the last column in the
/// last, where the columns are capped.
pub proof fn law_column_of_value(s: Seq<usize>, n: nat, i: int)
    requires
        0 <= i < s.len(),
        n > 0,
    ensures
        columns(s).len() == s.len(),
        columns(s)[i] == s[i],
        capped(s, n).len() == s.len(),
        s[i] < n ==> capped(s, n)[i] == s[i],
        s[i] >= n ==> capped(s, n)[i] == n - 1,
{
}

/// The axis ends above the largest count by one at least, and by no more than that and a tenth of
/// the count.
pub proof fn law_top_near_largest(counts: Seq<usize>)
    ensures
        top_of(counts) >= largest(counts) + 1,
        10 * (top_of(counts) - largest(counts)) <= largest(counts) || top_of(counts) == largest(
            counts,
        ) + 1,
        10 * (top_of(counts) - largest(counts)) > largest(counts) - 10,
{
}

} // verus!
