//! How often one page category follows another, and the Markov model that this makes.

use crate::keyed::{
    count_of, count_sum, counted, distinct, has_key, is_at, law_tallied_onto, lemma_count_in_sum,
    lemma_counted, lemma_counted_sum, lemma_distinct_entries, lemma_spot, spot, tallied_onto,
    times, Counts, Keyed,
};
use crate::order::{lemma_same_values, lemma_sum_permuted};
use crate::ratio::Ratio;
use crate::text::texts;
use vstd::prelude::*;

verus! {

/// A step from one category to the next.
pub type Step = (Seq<char>, Seq<char>);

/// The steps of a path.
pub open spec fn steps(path: Seq<Seq<char>>) -> Seq<Step> {
    if path.len() < 2 {
        Seq::empty()
    } else {
        Seq::new((path.len() - 1) as nat, |i: int| (path[i], path[i + 1]))
    }
}

/// The counts of all steps that start at `from`, added up.
pub open spec fn row_sum(s: Seq<(Step, nat)>, from: Seq<char>) -> nat
    decreases s.len(),
{
    if s.len() == 0 {
        0
    } else {
        row_sum(s.drop_last(), from) + if s.last().0.0 == from {
            s.last().1
        } else {
            0
        }
    }
}

// ---------------------------------------------------------------------------
// Table
// ---------------------------------------------------------------------------

/// How often one step was taken.
pub struct Transition {
    pub from: String,
    pub to: String,
    pub count: usize,
}

impl View for Transition {
    type V = (Step, nat);

    open spec fn view(&self) -> (Step, nat) {
        ((self.from@, self.to@), self.count as nat)
    }
}

/// How often each step was taken.
pub struct TransitionTable {
    rows: Vec<Transition>,
    index: Keyed<Keyed<usize>>,
}

impl TransitionTable {
    /// Row `i` is what the index has for its step.
    spec fn is_listed(self, i: int, a: int, b: int) -> bool {
        &&& is_at(self.index.entries(), self.rows@[i].from@, a)
        &&& is_at(self.index.entries()[a].1.entries(), self.rows@[i].to@, b)
        &&& self.index.entries()[a].1.entries()[b].1 == i
    }

    /// Row `i` is in the index.
    spec fn has_place(self, i: int) -> bool {
        exists|a: int, b: int| #[trigger] self.is_listed(i, a, b)
    }

    /// What the index has at `a` and `b` is the row of that step.
    spec fn is_true(self, a: int, b: int) -> bool {
        let i = self.index.entries()[a].1.entries()[b].1 as int;
        &&& i < self.rows@.len()
        &&& self.rows@[i].from@ == self.index.entries()[a].0
        &&& self.rows@[i].to@ == self.index.entries()[a].1.entries()[b].0
    }

    /// The index has every row, and only those.
    spec fn indexed(self) -> bool {
        &&& self.index.wf()
        &&& forall|a: int|
            0 <= a < self.index.entries().len() ==> (#[trigger] self.index.entries()[a]).1.wf()
        &&& forall|i: int|
            0 <= i < self.rows@.len() ==> #[trigger] self.has_place(i)
        &&& forall|a: int, b: int|
            0 <= a < self.index.entries().len() && 0 <= b
                < self.index.entries()[a].1.entries().len() ==> #[trigger] self.is_true(a, b)
    }

    /// The table is in order, and all its counts together fit a machine word.
    pub closed spec fn wf(self) -> bool {
        self.indexed() && count_sum(self.entries()) <= usize::MAX
    }

    /// The steps with their counts, in the order in which the steps first came.
    pub closed spec fn entries(self) -> Seq<(Step, nat)> {
        self.rows@.map_values(|t: Transition| t@)
    }

    /// No step comes twice, and all counts together fit a machine word.
    pub proof fn lemma_entries(self)
        requires
            self.wf(),
        ensures
            distinct(self.entries()),
            count_sum(self.entries()) <= usize::MAX,
    {
        self.index.lemma_distinct();
        let s = self.entries();
        assert forall|i: int, j: int| 0 <= i < j < s.len() implies (#[trigger] s[i]).0 != (
        #[trigger] s[j]).0 by {
            if s[i].0 == s[j].0 {
                assert(self.has_place(i));
                let (a, b) = choose|a: int, b: int| #[trigger] self.is_listed(i, a, b);
                assert(self.has_place(j));
                let (c, d) = choose|c: int, d: int| #[trigger] self.is_listed(j, c, d);
                lemma_spot(self.index.entries(), self.rows@[i].from@, a);
                lemma_spot(self.index.entries(), self.rows@[i].from@, c);
                self.index.entries()[a].1.lemma_distinct();
                lemma_spot(self.index.entries()[a].1.entries(), self.rows@[i].to@, b);
                lemma_spot(self.index.entries()[a].1.entries(), self.rows@[i].to@, d);
            }
        }
    }

    /// An empty table.
    pub fn new() -> (r: TransitionTable)
        ensures
            r.wf(),
            r.entries() == Seq::<(Step, nat)>::empty(),
    {
        let r = TransitionTable { rows: Vec::new(), index: Keyed::new() };
        assert(r.entries() == Seq::<(Step, nat)>::empty());
        r
    }

    /// The number of different steps.
    pub fn len(&self) -> (r: usize)
        ensures
            r == self.entries().len(),
    {
        self.rows.len()
    }

    /// The step and count at a position.
    pub fn row(&self, i: usize) -> (r: &Transition)
        requires
            i < self.entries().len(),
        ensures
            r@ == self.entries()[i as int],
    {
        &self.rows[i]
    }

    /// The position of a step.
    fn find(&self, from: &str, to: &str) -> (r: Option<usize>)
        requires
            self.indexed(),
        ensures
            match r {
                Some(i) => is_at(self.entries(), (from@, to@), i as int),
                None => !has_key(self.entries(), (from@, to@)),
            },
            match r {
                Some(i) => true,
                None => forall|i: int|
                    0 <= i < self.rows@.len() ==> !((#[trigger] self.rows@[i]).from@ == from@
                        && self.rows@[i].to@ == to@),
            },
    {
        proof {
            self.index.lemma_distinct();
        }
        let ghost s = self.entries();
        let ghost step = (from@, to@);
        match self.index.position(from) {
            Some(a) => {
                let inner = self.index.value(a);
                match inner.position(to) {
                    Some(b) => {
                        let i = *inner.value(b);
                        assert(self.is_true(a as int, b as int));
                        Some(i)
                    },
                    None => {
                        proof {
                            assert forall|i: int| 0 <= i < self.rows@.len() implies !((
                            #[trigger] self.rows@[i]).from@ == from@ && self.rows@[i].to@
                                == to@) by {
                                if self.rows@[i].from@ == from@ && self.rows@[i].to@ == to@ {
                                    assert(self.has_place(i));
                                    let (c, d) = choose|c: int, d: int| #[trigger]
                                        self.is_listed(i, c, d);
                                    lemma_spot(self.index.entries(), from@, c);
                                    lemma_spot(self.index.entries(), from@, a as int);
                                }
                            }
                            if has_key(s, step) {
                                let i = spot(s, step);
                                assert(is_at(s, step, i));
                                assert(self.rows@[i].from@ == from@);
                            }
                        }
                        None
                    },
                }
            },
            None => {
                proof {
                    assert forall|i: int| 0 <= i < self.rows@.len() implies !((
                    #[trigger] self.rows@[i]).from@ == from@ && self.rows@[i].to@ == to@) by {
                        assert(self.has_place(i));
                        let (c, d) = choose|c: int, d: int| #[trigger] self.is_listed(i, c, d);
                        assert(is_at(self.index.entries(), self.rows@[i].from@, c));
                    }
                    if has_key(s, step) {
                        let i = spot(s, step);
                        assert(is_at(s, step, i));
                        assert(self.rows@[i].from@ == from@);
                    }
                }
                None
            },
        }
    }

    /// How often a step was taken.
    pub fn count(&self, from: &str, to: &str) -> (r: usize)
        requires
            self.wf(),
        ensures
            r == count_of(self.entries(), (from@, to@)),
    {
        match self.find(from, to) {
            Some(i) => {
                proof {
                    self.lemma_entries();
                    lemma_spot(self.entries(), (from@, to@), i as int);
                }
                self.rows[i].count
            },
            None => 0,
        }
    }

    /// Puts a step into the index that is not there yet, as the last row.
    fn list(&mut self, from: &str, to: &str, n: usize)
        requires
            old(self).indexed(),
            forall|i: int|
                0 <= i < old(self).rows@.len() ==> !((#[trigger] old(self).rows@[i]).from@ == from@
                    && old(self).rows@[i].to@ == to@),
        ensures
            final(self).indexed(),
            final(self).entries() == old(self).entries().push(((from@, to@), n as nat)),
    {
        let ghost before = *self;
        let ghost e0 = self.index.entries();
        proof {
            self.index.lemma_distinct();
        }
        let at = self.rows.len();
        match self.index.position(from) {
            Some(a) => {
                let ghost inner0 = e0[a as int].1;
                proof {
                    if has_key(inner0.entries(), to@) {
                        let b = spot(inner0.entries(), to@);
                        assert(is_at(inner0.entries(), to@, b));
                        assert(self.is_true(a as int, b));
                    }
                }
                let inner = self.index.value_mut(a);
                inner.insert(to.to_owned(), at);
                self.rows.push(Transition { from: from.to_owned(), to: to.to_owned(), count: n });
                let ghost last = inner0.entries().len() as int;
                proof {
                    let e1 = self.index.entries();
                    assert forall|i: int| 0 <= i < self.rows@.len() implies #[trigger]
                    self.has_place(i) by {
                        if i < at {
                            assert(before.has_place(i));
                            let (c, d) = choose|c: int, d: int| #[trigger]
                                before.is_listed(i, c, d);
                            assert(self.is_listed(i, c, d));
                        } else {
                            assert(self.is_listed(i, a as int, last));
                        }
                    }
                    assert forall|c: int, d: int|
                        0 <= c < e1.len() && 0 <= d < e1[c].1.entries().len() implies #[trigger]
                    self.is_true(c, d) by {
                        if c != a || d != last {
                            assert(before.is_true(c, d));
                        }
                    }
                }
            },
            None => {
                let mut inner: Keyed<usize> = Keyed::new();
                proof {
                    let none = inner.entries();
                    if has_key(none, to@) {
                        assert(is_at(none, to@, spot(none, to@)));
                    }
                }
                inner.insert(to.to_owned(), at);
                self.index.insert(from.to_owned(), inner);
                self.rows.push(Transition { from: from.to_owned(), to: to.to_owned(), count: n });
                proof {
                    let e1 = self.index.entries();
                    assert forall|i: int| 0 <= i < self.rows@.len() implies #[trigger]
                    self.has_place(i) by {
                        if i < at {
                            assert(before.has_place(i));
                            let (c, d) = choose|c: int, d: int| #[trigger]
                                before.is_listed(i, c, d);
                            assert(self.is_listed(i, c, d));
                        } else {
                            assert(self.is_listed(i, e0.len() as int, 0));
                        }
                    }
                    assert forall|c: int, d: int|
                        0 <= c < e1.len() && 0 <= d < e1[c].1.entries().len() implies #[trigger]
                    self.is_true(c, d) by {
                        if c < e0.len() {
                            assert(before.is_true(c, d));
                        }
                    }
                }
            },
        }
        assert(self.entries() == before.entries().push(((from@, to@), n as nat)));
    }

    /// Adds to the count of a step.
    pub fn add_to(&mut self, from: &str, to: &str, n: usize)
        requires
            old(self).wf(),
            count_sum(old(self).entries()) + n <= usize::MAX,
        ensures
            final(self).wf(),
            final(self).entries() == counted(old(self).entries(), (from@, to@), n as nat),
    {
        let ghost before = *self;
        let ghost s0 = self.entries();
        let ghost step = (from@, to@);
        proof {
            self.lemma_entries();
            lemma_counted_sum(s0, step, n as nat);
        }
        match self.find(from, to) {
            Some(i) => {
                proof {
                    lemma_spot(s0, step, i as int);
                    lemma_count_in_sum(s0, i as int);
                }
                let slot = &mut self.rows[i];
                slot.count = slot.count + n;
                proof {
                    assert(self.entries() == s0.update(
                        i as int,
                        (step, s0[i as int].1 + n as nat),
                    ));
                    assert forall|k: int| 0 <= k < self.rows@.len() implies #[trigger]
                    self.has_place(k) by {
                        assert(before.has_place(k));
                        let (a, b) = choose|a: int, b: int| #[trigger] before.is_listed(k, a, b);
                        assert(self.is_listed(k, a, b));
                    }
                    let e = self.index.entries();
                    assert forall|a: int, b: int|
                        0 <= a < e.len() && 0 <= b < e[a].1.entries().len() implies #[trigger]
                    self.is_true(a, b) by {
                        assert(before.is_true(a, b));
                    }
                }
            },
            None => {
                self.list(from, to, n);
            },
        }
    }

    /// Counts every step of a path.
    pub fn record(&mut self, path: &Vec<String>)
        requires
            old(self).wf(),
            count_sum(old(self).entries()) + path@.len() <= usize::MAX + 1,
        ensures
            final(self).wf(),
            final(self).entries() == tallied_onto(old(self).entries(), steps(texts(path@))),
    {
        let ghost all = steps(texts(path@));
        let ghost s0 = self.entries();
        let mut i: usize = 1;
        assert(all.take(0) == Seq::<Step>::empty());
        proof {
            self.lemma_entries();
        }
        while i < path.len()
            invariant
                1 <= i,
                path@.len() >= 1 ==> i <= path@.len(),
                path@.len() == 0 ==> i == 1,
                all == steps(texts(path@)),
                distinct(s0),
                count_sum(s0) + path@.len() <= usize::MAX + 1,
                self.wf(),
                self.entries() == tallied_onto(s0, all.take(i - 1)),
            decreases path@.len() - i,
        {
            proof {
                assert(all[i - 1] == (path@[i - 1]@, path@[i as int]@));
                assert(all.take(i as int).drop_last() == all.take(i - 1));
                assert(all.take(i as int).last() == all[i - 1]);
                law_tallied_onto(s0, all.take(i - 1), all[i - 1]);
            }
            self.add_to(path[i - 1].as_str(), path[i].as_str(), 1);
            i += 1;
        }
        proof {
            assert(all.take(i - 1) == all);
        }
    }

    /// The counts of the steps from each category, added up.
    pub fn row_sums(&self) -> (r: Counts)
        requires
            self.wf(),
        ensures
            r.wf(),
            forall|from: Seq<char>| #[trigger]
                count_of(r.tally(), from) == row_sum(self.entries(), from),
    {
        let ghost s = self.entries();
        let mut r = Counts::new();
        let mut i: usize = 0;
        proof {
            self.lemma_entries();
            let none = r.tally();
            assert(s.take(0) == Seq::<(Step, nat)>::empty());
            assert forall|from: Seq<char>| #[trigger]
                count_of(none, from) == row_sum(s.take(0), from) by {
                if has_key(none, from) {
                    assert(is_at(none, from, spot(none, from)));
                }
            }
        }
        while i < self.rows.len()
            invariant
                s == self.entries(),
                s.len() == self.rows@.len(),
                count_sum(s) <= usize::MAX,
                i <= s.len(),
                r.wf(),
                count_sum(r.tally()) == count_sum(s.take(i as int)),
                forall|from: Seq<char>| #[trigger]
                    count_of(r.tally(), from) == row_sum(s.take(i as int), from),
            decreases s.len() - i,
        {
            let ghost before = r.tally();
            let row = &self.rows[i];
            proof {
                assert(s[i as int] == row@);
                assert(s.take(i + 1).drop_last() == s.take(i as int));
                assert(s.take(i + 1).last() == s[i as int]);
                lemma_sum_take(s, i + 1);
                r.lemma_distinct();
            }
            r.add_to(row.from.as_str(), row.count as u64);
            proof {
                assert forall|from: Seq<char>| #[trigger]
                    count_of(r.tally(), from) == row_sum(s.take(i + 1), from) by {
                    lemma_counted(before, row.from@, row.count as nat, from);
                    assert(count_of(before, from) == row_sum(s.take(i as int), from));
                }
            }
            i += 1;
        }
        assert(s.take(i as int) == s);
        r
    }
}

proof fn lemma_sum_take(s: Seq<(Step, nat)>, n: int)
    requires
        0 <= n <= s.len(),
    ensures
        count_sum(s.take(n)) <= count_sum(s),
    decreases s.len() - n,
{
    if n < s.len() {
        lemma_sum_take(s, n + 1);
        assert(s.take(n + 1).drop_last() == s.take(n));
    } else {
        assert(s.take(n) == s);
    }
}

// ---------------------------------------------------------------------------
// Model
// ---------------------------------------------------------------------------

/// The probability of one step, given where it starts.
pub struct TransitionShare {
    pub from: String,
    pub to: String,
    pub probability: Ratio,
}

impl View for TransitionShare {
    type V = (Step, Ratio);

    open spec fn view(&self) -> (Step, Ratio) {
        ((self.from@, self.to@), self.probability)
    }
}

/// The probabilities of the first `n` steps of a table: the count of a step to the sum of its row.
/// Rows that sum up to nothing have none.
pub open spec fn probabilities_upto(s: Seq<(Step, nat)>, n: nat) -> Seq<(Step, Ratio)>
    decreases n,
{
    if n == 0 {
        Seq::empty()
    } else {
        let rest = probabilities_upto(s, (n - 1) as nat);
        let (step, count) = s[n - 1];
        let sum = row_sum(s, step.0);
        if sum > 0 {
            rest.push((step, (Ratio { num: count as u64, den: sum as u64 })))
        } else {
            rest
        }
    }
}

/// The probabilities of all steps of a table.
pub open spec fn probabilities(s: Seq<(Step, nat)>) -> Seq<(Step, Ratio)> {
    probabilities_upto(s, s.len())
}

/// A Markov model of the way through the site.
pub struct MarkovDetector {
    /// The probabilities of the steps.
    pub tpm: Vec<TransitionShare>,
    /// The probability of a step that was never seen.
    pub state_alpha: Ratio,
}

impl MarkovDetector {
    /// The probabilities of the steps.
    pub open spec fn model(self) -> Seq<(Step, Ratio)> {
        self.tpm@.map_values(|t: TransitionShare| t@)
    }

    /// The model of the steps that were counted.
    pub fn train(transitions: &TransitionTable) -> (r: MarkovDetector)
        requires
            transitions.wf(),
        ensures
            r.model() == probabilities(transitions.entries()),
            r.state_alpha == (Ratio { num: 1, den: 10000 }),
    {
        let ghost s = transitions.entries();
        let sums = transitions.row_sums();
        let mut tpm: Vec<TransitionShare> = Vec::new();
        let mut i: usize = 0;
        let n = transitions.len();
        assert(tpm@.map_values(|t: TransitionShare| t@) == Seq::<(Step, Ratio)>::empty());
        while i < n
            invariant
                s == transitions.entries(),
                n == s.len(),
                i <= n,
                sums.wf(),
                forall|from: Seq<char>| #[trigger]
                    count_of(sums.tally(), from) == row_sum(s, from),
                tpm@.map_values(|t: TransitionShare| t@) == probabilities_upto(s, i as nat),
            decreases n - i,
        {
            let ghost tpm0 = tpm@;
            let row = transitions.row(i);
            let sum = sums.get(row.from.as_str());
            if sum > 0 {
                tpm.push(
                    TransitionShare {
                        from: row.from.clone(),
                        to: row.to.clone(),
                        probability: Ratio { num: row.count as u64, den: sum },
                    },
                );
                assert(tpm@.map_values(|t: TransitionShare| t@) == tpm0.map_values(
                    |t: TransitionShare| t@,
                ).push(tpm@.last()@));
            }
            i += 1;
        }
        MarkovDetector { tpm, state_alpha: Ratio { num: 1, den: 10000 } }
    }
}

// ---------------------------------------------------------------------------
// Laws
// ---------------------------------------------------------------------------

/// The counts in the probabilities of the steps from `from`, added up.
pub open spec fn share_sum(p: Seq<(Step, Ratio)>, from: Seq<char>) -> nat
    decreases p.len(),
{
    if p.len() == 0 {
        0
    } else {
        share_sum(p.drop_last(), from) + if p.last().0.0 == from {
            p.last().1.num as nat
        } else {
            0
        }
    }
}

proof fn lemma_row_in_sum(s: Seq<(Step, nat)>, i: int)
    requires
        0 <= i < s.len(),
    ensures
        s[i].1 <= row_sum(s, s[i].0.0),
        row_sum(s, s[i].0.0) <= count_sum(s),
    decreases s.len(),
{
    lemma_row_below_sum(s, s[i].0.0);
    if i < s.len() - 1 {
        lemma_row_in_sum(s.drop_last(), i);
    }
}

proof fn lemma_row_below_sum(s: Seq<(Step, nat)>, from: Seq<char>)
    ensures
        row_sum(s, from) <= count_sum(s),
    decreases s.len(),
{
    if s.len() > 0 {
        lemma_row_below_sum(s.drop_last(), from);
    }
}

proof fn lemma_shares_upto(s: Seq<(Step, nat)>, from: Seq<char>, n: nat)
    requires
        n <= s.len(),
        count_sum(s) <= usize::MAX,
        row_sum(s, from) > 0,
    ensures
        share_sum(probabilities_upto(s, n), from) == row_sum(s.take(n as int), from),
        forall|k: int|
            0 <= k < probabilities_upto(s, n).len() && (#[trigger] probabilities_upto(s, n)[k]).0.0
                == from ==> probabilities_upto(s, n)[k].1.den == row_sum(s, from),
    decreases n,
{
    if n == 0 {
        assert(s.take(0) == Seq::<(Step, nat)>::empty());
    } else {
        let m = (n - 1) as nat;
        lemma_shares_upto(s, from, m);
        lemma_row_in_sum(s, n - 1);
        assert(s.take(n as int).drop_last() == s.take(m as int));
        let p = probabilities_upto(s, n);
        let q = probabilities_upto(s, m);
        if row_sum(s, s[n - 1].0.0) > 0 {
            assert(p.drop_last() == q);
            assert forall|k: int|
                0 <= k < p.len() && (#[trigger] p[k]).0.0 == from implies p[k].1.den == row_sum(
                s,
                from,
            ) by {
                if k < q.len() {
                    assert(p[k] == q[k]);
                }
            }
        } else {
            assert(p == q);
        }
    }
}

/// The probabilities of the steps from one category add up to 1: they all have the sum of the row
/// below the line, and what is above the line adds up to it.
pub proof fn law_probabilities_sum_to_one(s: Seq<(Step, nat)>, from: Seq<char>)
    requires
        count_sum(s) <= usize::MAX,
        row_sum(s, from) > 0,
    ensures
        share_sum(probabilities(s), from) == row_sum(s, from),
        forall|k: int|
            0 <= k < probabilities(s).len() && (#[trigger] probabilities(s)[k]).0.0 == from
                ==> probabilities(s)[k].1.den == row_sum(s, from),
{
    lemma_shares_upto(s, from, s.len());
    assert(s.take(s.len() as int) == s);
}

/// The model has only steps that were counted, and each has a probability of at most 1.
pub proof fn law_probabilities_bounded(s: Seq<(Step, nat)>, k: int)
    requires
        count_sum(s) <= usize::MAX,
        0 <= k < probabilities(s).len(),
    ensures
        probabilities(s)[k].1.num <= probabilities(s)[k].1.den,
        probabilities(s)[k].1.den > 0,
        has_key(s, probabilities(s)[k].0),
{
    lemma_bounded_upto(s, s.len(), k);
}

proof fn lemma_bounded_upto(s: Seq<(Step, nat)>, n: nat, k: int)
    requires
        n <= s.len(),
        count_sum(s) <= usize::MAX,
        0 <= k < probabilities_upto(s, n).len(),
    ensures
        probabilities_upto(s, n)[k].1.num <= probabilities_upto(s, n)[k].1.den,
        probabilities_upto(s, n)[k].1.den > 0,
        has_key(s, probabilities_upto(s, n)[k].0),
    decreases n,
{
    let m = (n - 1) as nat;
    lemma_row_in_sum(s, n - 1);
    if k < probabilities_upto(s, m).len() {
        lemma_bounded_upto(s, m, k);
    } else {
        assert(is_at(s, s[n - 1].0, n - 1));
    }
}

/// Every step from a category that was left is in the model, with its count above the line.
pub proof fn law_model_complete(s: Seq<(Step, nat)>, i: int) -> (k: int)
    requires
        count_sum(s) <= usize::MAX,
        0 <= i < s.len(),
        row_sum(s, s[i].0.0) > 0,
    ensures
        0 <= k < probabilities(s).len(),
        probabilities(s)[k].0 == s[i].0,
        probabilities(s)[k].1.num == s[i].1,
{
    lemma_row_in_sum(s, i);
    lemma_model_keeps(s, i, s.len());
    probabilities_upto(s, i as nat).len() as int
}

proof fn lemma_model_keeps(s: Seq<(Step, nat)>, i: int, n: nat)
    requires
        0 <= i < n <= s.len(),
        row_sum(s, s[i].0.0) > 0,
    ensures
        ({
            let k = probabilities_upto(s, i as nat).len() as int;
            &&& k < probabilities_upto(s, n).len()
            &&& probabilities_upto(s, n)[k] == (
                s[i].0,
                Ratio { num: s[i].1 as u64, den: row_sum(s, s[i].0.0) as u64 },
            )
        }),
    decreases n,
{
    if i < n - 1 {
        lemma_model_keeps(s, i, (n - 1) as nat);
    }
}

/// The entries of a table that start at `from`.
spec fn row_of(s: Seq<(Step, nat)>, from: Seq<char>) -> Seq<(Step, nat)>
    decreases s.len(),
{
    if s.len() == 0 {
        Seq::empty()
    } else {
        let rest = row_of(s.drop_last(), from);
        if s.last().0.0 == from {
            rest.push(s.last())
        } else {
            rest
        }
    }
}

proof fn lemma_row_of(s: Seq<(Step, nat)>, from: Seq<char>)
    requires
        distinct(s),
    ensures
        count_sum(row_of(s, from)) == row_sum(s, from),
        distinct(row_of(s, from)),
        forall|e: (Step, nat)| #[trigger]
            row_of(s, from).contains(e) <==> s.contains(e) && e.0.0 == from,
    decreases s.len(),
{
    if s.len() > 0 {
        let rest = s.drop_last();
        assert(distinct(rest)) by {
            assert forall|i: int, j: int| 0 <= i < j < rest.len() implies (#[trigger] rest[i]).0
                != (#[trigger] rest[j]).0 by {
                assert(s[i].0 != s[j].0);
            }
        }
        lemma_row_of(rest, from);
        let (a, b) = (row_of(rest, from), row_of(s, from));
        assert(s[s.len() - 1] == s.last());
        if s.last().0.0 == from {
            assert(b.drop_last() == a);
            assert forall|i: int, j: int| 0 <= i < j < b.len() implies (#[trigger] b[i]).0 != (
            #[trigger] b[j]).0 by {
                if j < a.len() {
                    assert(a[i].0 != a[j].0);
                } else {
                    assert(a.contains(a[i]));
                    assert(rest.contains(a[i]));
                    let k = choose|k: int| 0 <= k < rest.len() && rest[k] == a[i];
                    assert(s[k].0 != s[s.len() - 1].0);
                }
            }
        }
        assert forall|e: (Step, nat)| #[trigger] b.contains(e) <==> s.contains(e) && e.0.0
            == from by {
            if b.contains(e) {
                let i = choose|i: int| 0 <= i < b.len() && b[i] == e;
                if i < a.len() {
                    assert(a[i] == e);
                    assert(a.contains(e));
                    let k = choose|k: int| 0 <= k < rest.len() && rest[k] == e;
                    assert(s[k] == e);
                }
            }
            if s.contains(e) && e.0.0 == from {
                let k = choose|k: int| 0 <= k < s.len() && s[k] == e;
                if k < rest.len() {
                    assert(rest[k] == e);
                    assert(rest.contains(e));
                    assert(a.contains(e));
                    let i = choose|i: int| 0 <= i < a.len() && a[i] == e;
                    assert(b[i] == e);
                } else {
                    assert(b[b.len() - 1] == e);
                }
            }
        }
    }
}

/// All counts multiplied by `k`.
spec fn scaled(s: Seq<(Step, nat)>, k: nat) -> Seq<(Step, nat)> {
    s.map_values(|e: (Step, nat)| (e.0, k * e.1))
}

proof fn lemma_scaled_sum(s: Seq<(Step, nat)>, k: nat)
    ensures
        count_sum(scaled(s, k)) == k * count_sum(s),
    decreases s.len(),
{
    if s.len() > 0 {
        lemma_scaled_sum(s.drop_last(), k);
        assert(scaled(s, k).drop_last() == scaled(s.drop_last(), k));
        let (a, b) = (count_sum(s.drop_last()), s.last().1);
        assert(k * (a + b) == k * a + k * b) by (nonlinear_arith);
    } else {
        assert(k * 0 == 0) by (nonlinear_arith);
    }
}

proof fn lemma_sum_concat(a: Seq<(Step, nat)>, b: Seq<(Step, nat)>)
    ensures
        count_sum(a + b) == count_sum(a) + count_sum(b),
    decreases b.len(),
{
    if b.len() == 0 {
        assert(a + b == a);
    } else {
        lemma_sum_concat(a, b.drop_last());
        assert((a + b).drop_last() == a + b.drop_last());
        assert((a + b).last() == b.last());
    }
}

/// The row of `from` in `t` is that in `s` with all counts multiplied by `k`.
pub open spec fn row_multiplied(
    s: Seq<(Step, nat)>,
    t: Seq<(Step, nat)>,
    from: Seq<char>,
    k: nat,
) -> bool {
    forall|to: Seq<char>| #![trigger has_key(s, (from, to))]
        #![trigger has_key(t, (from, to))]
        (has_key(s, (from, to)) <==> has_key(t, (from, to))) && count_of(t, (from, to)) == k
            * count_of(s, (from, to))
}

/// The sum of a row is multiplied as its counts are.
pub proof fn law_row_sum_multiplied(
    s: Seq<(Step, nat)>,
    t: Seq<(Step, nat)>,
    from: Seq<char>,
    k: nat,
)
    requires
        distinct(s),
        distinct(t),
        row_multiplied(s, t, from, k),
    ensures
        row_sum(t, from) == k * row_sum(s, from),
{
    lemma_row_of(s, from);
    lemma_row_of(t, from);
    let (a, b) = (scaled(row_of(s, from), k), row_of(t, from));
    let r = row_of(s, from);
    assert(distinct(a)) by {
        assert forall|i: int, j: int| 0 <= i < j < a.len() implies (#[trigger] a[i]).0 != (
        #[trigger] a[j]).0 by {
            assert(r[i].0 != r[j].0);
        }
    }
    assert forall|e: (Step, nat)| #[trigger] a.contains(e) <==> b.contains(e) by {
        if a.contains(e) {
            let i = choose|i: int| 0 <= i < a.len() && a[i] == e;
            assert(r.contains(r[i]));
            assert(s.contains(r[i]));
            let p = choose|p: int| 0 <= p < s.len() && s[p] == r[i];
            let step = (from, r[i].0.1);
            assert(step == r[i].0);
            assert(is_at(s, step, p));
            lemma_spot(s, step, p);
            assert(has_key(t, step));
            let q = spot(t, step);
            assert(is_at(t, step, q));
            assert(t[q] == e);
            assert(t.contains(e));
        }
        if b.contains(e) {
            assert(t.contains(e));
            let q = choose|q: int| 0 <= q < t.len() && t[q] == e;
            let step = (from, e.0.1);
            assert(step == e.0);
            assert(is_at(t, step, q));
            lemma_spot(t, step, q);
            assert(has_key(s, step));
            let p = spot(s, step);
            assert(is_at(s, step, p));
            assert(s.contains(s[p]));
            assert(r.contains(s[p]));
            let i = choose|i: int| 0 <= i < r.len() && r[i] == s[p];
            assert(a[i] == e);
        }
    }
    lemma_distinct_entries(a);
    lemma_distinct_entries(b);
    lemma_same_values(a, b);
    let f = |x: Seq<(Step, nat)>| count_sum(x);
    assert forall|x: Seq<(Step, nat)>, y: Seq<(Step, nat)>| #[trigger] f(x + y) == f(x) + f(y) by {
        lemma_sum_concat(x, y);
    }
    lemma_sum_permuted(f, a, b);
    lemma_scaled_sum(r, k);
}

proof fn lemma_model_entry(s: Seq<(Step, nat)>, n: nat, i: int)
    requires
        distinct(s),
        n <= s.len(),
        count_sum(s) <= usize::MAX,
        0 <= i < probabilities_upto(s, n).len(),
    ensures
        ({
            let (step, p) = probabilities_upto(s, n)[i];
            &&& has_key(s, step)
            &&& row_sum(s, step.0) > 0
            &&& p.num == count_of(s, step)
            &&& p.den == row_sum(s, step.0)
        }),
    decreases n,
{
    let m = (n - 1) as nat;
    lemma_row_in_sum(s, n - 1);
    if i < probabilities_upto(s, m).len() {
        lemma_model_entry(s, m, i);
    } else {
        assert(is_at(s, s[n - 1].0, n - 1));
        lemma_spot(s, s[n - 1].0, n - 1);
    }
}

/// Multiplying all counts of a row by one factor, or changing other rows, leaves the row's part of
/// the model as it is: it has the same steps, with the same probabilities as fractions.
pub proof fn law_row_scaling_ignored(
    s: Seq<(Step, nat)>,
    t: Seq<(Step, nat)>,
    from: Seq<char>,
    to: Seq<char>,
    k: nat,
)
    requires
        distinct(s),
        distinct(t),
        count_sum(s) <= usize::MAX,
        count_sum(t) <= usize::MAX,
        k >= 1,
        row_multiplied(s, t, from, k),
    ensures
        has_key(probabilities(s), (from, to)) <==> has_key(probabilities(t), (from, to)),
        forall|i: int, j: int| #[trigger]
            is_at(probabilities(s), (from, to), i) && #[trigger] is_at(
                probabilities(t),
                (from, to),
                j,
            ) ==> probabilities(s)[i].1.same_fraction(probabilities(t)[j].1),
{
    let step = (from, to);
    let (a, b) = (probabilities(s), probabilities(t));
    law_row_sum_multiplied(s, t, from, k);
    let (x, y) = (row_sum(s, from), row_sum(t, from));
    assert(x > 0 <==> y > 0) by (nonlinear_arith)
        requires
            y == k * x,
            k >= 1,
    ;
    if has_key(a, step) {
        let i = spot(a, step);
        assert(is_at(a, step, i));
        lemma_model_entry(s, s.len(), i);
        assert(has_key(t, step));
        let q = spot(t, step);
        assert(is_at(t, step, q));
        let j = law_model_complete(t, q);
        assert(is_at(b, step, j));
    }
    if has_key(b, step) {
        let j = spot(b, step);
        assert(is_at(b, step, j));
        lemma_model_entry(t, t.len(), j);
        assert(has_key(s, step));
        let p = spot(s, step);
        assert(is_at(s, step, p));
        let i = law_model_complete(s, p);
        assert(is_at(a, step, i));
    }
    assert forall|i: int, j: int| #[trigger]
        is_at(a, step, i) && #[trigger] is_at(b, step, j) implies a[i].1.same_fraction(b[j].1) by {
        lemma_model_entry(s, s.len(), i);
        lemma_model_entry(t, t.len(), j);
        assert(has_key(s, step));
        let (n, m) = (count_of(s, step), count_of(t, step));
        assert(n * y == m * x) by (nonlinear_arith)
            requires
                y == k * x,
                m == k * n,
        ;
    }
}

/// A step of a path is counted as often as it is taken, and one that is not taken keeps its count.
pub proof fn law_steps_counted(base: Seq<(Step, nat)>, path: Seq<Seq<char>>, step: Step)
    requires
        distinct(base),
    ensures
        count_of(tallied_onto(base, steps(path)), step) == count_of(base, step) + times(
            steps(path),
            step,
        ),
        count_sum(tallied_onto(base, steps(path))) == count_sum(base) + if path.len() < 2 {
            0
        } else {
            path.len() - 1
        },
{
    law_tallied_onto(base, steps(path), step);
}

/// The steps of two paths one after the other are those of the first, the one that leads from its
/// end to the start of the second, and those of the second. A single page has no steps.
pub proof fn law_steps_joined(a: Seq<Seq<char>>, b: Seq<Seq<char>>)
    requires
        a.len() > 0,
        b.len() > 0,
    ensures
        steps(a + b) == steps(a) + seq![(a.last(), b[0])] + steps(b),
        a.len() == 1 ==> steps(a) == Seq::<Step>::empty(),
{
    let whole = steps(a) + seq![(a.last(), b[0])] + steps(b);
    assert(steps(a + b).len() == whole.len());
    assert forall|i: int| 0 <= i < whole.len() implies steps(a + b)[i] == whole[i] by {
        if i < a.len() - 1 {
            assert(steps(a)[i] == (a[i], a[i + 1]));
        } else if i >= a.len() {
            assert(steps(b)[i - a.len()] == (b[i - a.len()], b[i - a.len() + 1]));
        }
    }
    assert(steps(a + b) == whole);
}

/// How often a step is counted for a path is how many pages of the path it leads from.
pub proof fn law_step_count_of_path(path: Seq<Seq<char>>, from: Seq<char>, to: Seq<char>)
    ensures
        count_of(tallied_onto(Seq::<(Step, nat)>::empty(), steps(path)), (from, to)) == Seq::new(
            path.len(),
            |i: int| i,
        ).filter(
            |i: int| 0 <= i < path.len() - 1 && path[i] == from && path[i + 1] == to,
        ).len(),
{
    let none = Seq::<(Step, nat)>::empty();
    if has_key(none, (from, to)) {
        assert(is_at(none, (from, to), spot(none, (from, to))));
    }
    law_tallied_onto(none, steps(path), (from, to));
    let leads = |i: int| 0 <= i < path.len() - 1 && path[i] == from && path[i + 1] == to;
    if path.len() > 0 {
        lemma_steps_led(path, from, to, path.len() - 1);
        let all = Seq::new(path.len(), |i: int| i);
        reveal(Seq::filter);
        assert(all.drop_last() == Seq::new((path.len() - 1) as nat, |i: int| i));
        assert(steps(path).take(path.len() - 1) == steps(path));
        assert(!leads(all.last()));
        assert(all.filter(leads) == all.drop_last().filter(leads));
    } else {
        reveal(Seq::filter);
    }
}

proof fn lemma_steps_led(path: Seq<Seq<char>>, from: Seq<char>, to: Seq<char>, n: int)
    requires
        0 <= n <= path.len() - 1,
    ensures
        times(steps(path).take(n), (from, to)) == Seq::new(n as nat, |i: int| i).filter(
            |i: int| 0 <= i < path.len() - 1 && path[i] == from && path[i + 1] == to,
        ).len(),
    decreases n,
{
    reveal(Seq::filter);
    if n > 0 {
        lemma_steps_led(path, from, to, n - 1);
        let all = Seq::new(n as nat, |i: int| i);
        assert(all.drop_last() == Seq::new((n - 1) as nat, |i: int| i));
        assert(steps(path).take(n).drop_last() == steps(path).take(n - 1));
        assert(steps(path).take(n).last() == (path[n - 1], path[n]));
    }
}

/// The sum of a row is the sum of the counts of the steps that start there, and of no others.
pub proof fn law_row_summed(s: Seq<(Step, nat)>, from: Seq<char>)
    ensures
        row_sum(s, from) == count_sum(s.filter(|e: (Step, nat)| e.0.0 == from)),
    decreases s.len(),
{
    reveal(Seq::filter);
    let mine = |e: (Step, nat)| e.0.0 == from;
    if s.len() > 0 {
        law_row_summed(s.drop_last(), from);
        if s.last().0.0 == from {
            let rest = s.drop_last().filter(mine);
            assert(s.filter(mine) == rest.push(s.last()));
            assert(rest.push(s.last()).drop_last() == rest);
        }
    }
}

/// The model has a step exactly when it was counted from a category that was left, and its
/// probability is the count of the step to the sum of the counts from there.
pub proof fn law_model_exact(s: Seq<(Step, nat)>, from: Seq<char>, to: Seq<char>, i: int)
    requires
        distinct(s),
        count_sum(s) <= usize::MAX,
    ensures
        has_key(probabilities(s), (from, to)) <==> has_key(s, (from, to)) && row_sum(s, from) > 0,
        is_at(probabilities(s), (from, to), i) ==> probabilities(s)[i].1.num == count_of(
            s,
            (from, to),
        ) && probabilities(s)[i].1.den == row_sum(s, from),
{
    let (p, step) = (probabilities(s), (from, to));
    if has_key(p, step) {
        let k = spot(p, step);
        assert(is_at(p, step, k));
        lemma_model_entry(s, s.len(), k);
    }
    if has_key(s, step) && row_sum(s, from) > 0 {
        let q = spot(s, step);
        assert(is_at(s, step, q));
        let k = law_model_complete(s, q);
        assert(is_at(p, step, k));
    }
    if is_at(p, step, i) {
        lemma_model_entry(s, s.len(), i);
    }
}

} // verus!
