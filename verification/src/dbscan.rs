//! Density based clustering (DBSCAN) of points of which it is known which lie near each other.

use crate::number::{decimal, law_decimal_injective, signed_decimal, to_signed_decimal};
use crate::text::append;
use vstd::prelude::*;

verus! {

/// The label of a point that belongs to no cluster.
pub const NOISE: i32 = -1;

/// The label of a point that has not been looked at yet.
const UNVISITED: i32 = -99;

/// Which of a number of points lie near each other. Nearness has no direction: for each point
/// it is held once against every earlier point and against the point itself.
pub struct Proximity {
    rows: Vec<Vec<bool>>,
}

// ---------------------------------------------------------------------------
// Specification
// ---------------------------------------------------------------------------

impl Proximity {
    /// The rows have the shape of a triangle, and the points can be counted in an `i32`.
    pub closed spec fn wf(self) -> bool {
        &&& self.rows@.len() <= i32::MAX
        &&& forall|i: int| 0 <= i < self.rows@.len() ==> (#[trigger] self.rows@[i])@.len() == i + 1
    }

    /// The number of points.
    pub closed spec fn count(self) -> nat {
        self.rows@.len()
    }

    /// `i` is one of the points.
    pub open spec fn has(self, i: int) -> bool {
        0 <= i < self.count()
    }

    /// The points `i` and `j` lie near each other.
    pub closed spec fn near(self, i: int, j: int) -> bool {
        if j <= i {
            self.rows@[i]@[j]
        } else {
            self.rows@[j]@[i]
        }
    }

    /// The points near `i` among the first `k`, in ascending order.
    #[verifier::opaque]
    pub open spec fn region_upto(self, i: int, k: nat) -> Seq<int>
        decreases k,
    {
        if k == 0 {
            Seq::empty()
        } else {
            let rest = self.region_upto(i, (k - 1) as nat);
            if self.near(i, k - 1) {
                rest.push(k - 1)
            } else {
                rest
            }
        }
    }

    /// The points near `i`, in ascending order.
    pub open spec fn region(self, i: int) -> Seq<int> {
        self.region_upto(i, self.count())
    }

    /// `i` is a core point: one with at least `min_points` points near it.
    pub open spec fn dense(self, min_points: nat, i: int) -> bool {
        &&& self.has(i)
        &&& self.region(i).len() >= min_points
    }

    /// `chain` leads from `i` to `j` over core points, each near the next.
    pub open spec fn is_chain(self, min_points: nat, chain: Seq<int>, i: int, j: int) -> bool {
        &&& chain.len() > 0
        &&& chain[0] == i
        &&& chain.last() == j
        &&& forall|k: int| 0 <= k < chain.len() ==> self.dense(min_points, #[trigger] chain[k])
        &&& forall|a: int, b: int|
            0 <= a < chain.len() - 1 && b == a + 1 ==> self.near(
                #[trigger] chain[a],
                #[trigger] chain[b],
            )
    }

    /// A chain of core points leads from `i` to `j`.
    pub open spec fn linked(self, min_points: nat, i: int, j: int) -> bool {
        exists|chain: Seq<int>| self.is_chain(min_points, chain, i, j)
    }

    /// Some core point lies near `i`.
    pub open spec fn reached(self, min_points: nat, i: int) -> bool {
        exists|j: int| #[trigger] self.dense(min_points, j) && self.near(j, i)
    }

    /// The number of clusters that occur among the core points before `i`, when each new one has
    /// the next number.
    pub open spec fn clusters_before(self, min_points: nat, labels: Seq<i32>, i: nat) -> int
        decreases i,
    {
        if i == 0 {
            0
        } else {
            let rest = self.clusters_before(min_points, labels, (i - 1) as nat);
            if self.dense(min_points, i - 1) && labels[i - 1] == rest {
                rest + 1
            } else {
                rest
            }
        }
    }

    /// `labels` is the clustering of the points.
    ///
    /// Core points share a label exactly when they are linked; clusters are numbered from 0 in the
    /// order of their first core points; a point that is no core point has the lowest label among
    /// the core points near it, and is noise when there are none.
    pub open spec fn is_clustering(self, min_points: nat, labels: Seq<i32>) -> bool {
        &&& labels.len() == self.count()
        &&& forall|i: int, j: int| #[trigger]
            self.dense(min_points, i) && #[trigger] self.dense(min_points, j) ==> (labels[i]
                == labels[j] <==> self.linked(min_points, i, j))
        &&& forall|i: int| #[trigger]
            self.dense(min_points, i) ==> 0 <= labels[i] <= self.clusters_before(
                min_points,
                labels,
                i as nat,
            )
        &&& forall|i: int|
            #![trigger labels[i]]
            self.has(i) && !self.dense(min_points, i) && self.reached(min_points, i) ==> (exists|
                j: int,
            | #[trigger]
                self.dense(min_points, j) && self.near(j, i) && labels[j] == labels[i])
        &&& forall|i: int, j: int|
            #![trigger labels[i], self.dense(min_points, j)]
            self.has(i) && !self.dense(min_points, i) && self.dense(min_points, j) && self.near(
                j,
                i,
            ) ==> labels[i] <= labels[j]
        &&& forall|i: int|
            #![trigger labels[i]]
            self.has(i) && !self.dense(min_points, i) && !self.reached(min_points, i) ==> labels[i]
                == NOISE
    }

    /// Everything that the first `c` clusters reach has its label.
    spec fn settled(self, m: nat, labels: Seq<i32>, c: int) -> bool {
        &&& labels.len() == self.count()
        &&& forall|i: int|
            0 <= i < labels.len() ==> #[trigger] labels[i] == UNVISITED || labels[i] == NOISE || 0
                <= labels[i] < c
        &&& forall|i: int|
            0 <= i < labels.len() && #[trigger] labels[i] == NOISE ==> !self.dense(m, i)
        &&& forall|i: int, j: int|
            0 <= i < labels.len() && #[trigger] labels[i] == NOISE && #[trigger] self.dense(m, j)
                && labels[j] >= 0 ==> !self.near(j, i)
        &&& forall|i: int, j: int| #[trigger]
            self.dense(m, i) && labels[i] >= 0 && self.has(j) && #[trigger] self.near(i, j)
                ==> labels[j] >= 0 && labels[j] <= labels[i] && (self.dense(m, j) ==> labels[j]
                == labels[i])
        &&& forall|i: int|
            0 <= i < labels.len() && #[trigger] labels[i] >= 0 && !self.dense(m, i) ==> (exists|
                j: int,
            | #[trigger]
                self.dense(m, j) && self.near(j, i) && labels[j] == labels[i])
        &&& forall|i: int, j: int| #[trigger]
            self.dense(m, i) && #[trigger] self.dense(m, j) && labels[i] == labels[j] && labels[i]
                >= 0 ==> self.linked(m, i, j)
    }
}

// ---------------------------------------------------------------------------
// Lemmas
// ---------------------------------------------------------------------------

impl Proximity {
    /// Nearness has no direction.
    pub proof fn lemma_symmetric(self, i: int, j: int)
        ensures
            self.near(i, j) == self.near(j, i),
    {
    }

    proof fn lemma_region_upto(self, i: int, k: nat, x: int)
        ensures
            self.region_upto(i, k).contains(x) <==> 0 <= x < k && self.near(i, x),
        decreases k,
    {
        reveal_with_fuel(Proximity::region_upto, 2);
        if k > 0 {
            self.lemma_region_upto(i, (k - 1) as nat, x);
            let rest = self.region_upto(i, (k - 1) as nat);
            if self.near(i, k - 1) {
                let all = rest.push(k - 1);
                if rest.contains(x) {
                    let w = rest.index_of(x);
                    assert(all[w] == x);
                }
                if x == k - 1 {
                    assert(all[rest.len() as int] == x);
                }
                if all.contains(x) && x != k - 1 {
                    let w = all.index_of(x);
                    assert(rest[w] == x);
                }
            }
        }
    }

    /// The region of a point holds exactly the points near it.
    pub proof fn lemma_region(self, i: int, x: int)
        ensures
            self.region(i).contains(x) <==> self.has(x) && self.near(i, x),
    {
        self.lemma_region_upto(i, self.count(), x);
    }

    proof fn lemma_linked_refl(self, m: nat, i: int)
        requires
            self.dense(m, i),
        ensures
            self.linked(m, i, i),
    {
        assert(self.is_chain(m, seq![i], i, i));
    }

    proof fn lemma_linked_step(self, m: nat, i: int, j: int, k: int)
        requires
            self.linked(m, i, j),
            self.dense(m, k),
            self.near(j, k),
        ensures
            self.linked(m, i, k),
    {
        let a = choose|chain: Seq<int>| self.is_chain(m, chain, i, j);
        let b = a.push(k);
        assert forall|x: int, y: int| 0 <= x < b.len() - 1 && y == x + 1 implies self.near(
            #[trigger] b[x],
            #[trigger] b[y],
        ) by {
            if x < a.len() - 1 {
                assert(b[x] == a[x]);
                assert(b[y] == a[y]);
            } else {
                assert(b[x] == a.last());
            }
        }
        assert forall|x: int| 0 <= x < b.len() implies self.dense(m, #[trigger] b[x]) by {
            if x < a.len() {
                assert(b[x] == a[x]);
            }
        }
        assert(self.is_chain(m, b, i, k));
    }

    /// Being linked has no direction.
    pub proof fn lemma_linked_symmetric(self, m: nat, i: int, j: int)
        requires
            self.linked(m, i, j),
        ensures
            self.linked(m, j, i),
    {
        let a = choose|chain: Seq<int>| self.is_chain(m, chain, i, j);
        let b = a.reverse();
        assert forall|x: int, y: int| 0 <= x < b.len() - 1 && y == x + 1 implies self.near(
            #[trigger] b[x],
            #[trigger] b[y],
        ) by {
            let (p, q) = (a.len() - 1 - y, a.len() - 1 - x);
            assert(b[x] == a[q] && b[y] == a[p]);
            assert(self.near(a[p], a[q]));
            self.lemma_symmetric(a[p], a[q]);
        }
        assert forall|x: int| 0 <= x < b.len() implies self.dense(m, #[trigger] b[x]) by {
            assert(b[x] == a[a.len() - 1 - x]);
        }
        assert(self.is_chain(m, b, j, i));
    }

    /// What is linked to something linked is itself linked.
    pub proof fn lemma_linked_transitive(self, m: nat, i: int, j: int, k: int)
        requires
            self.linked(m, i, j),
            self.linked(m, j, k),
        ensures
            self.linked(m, i, k),
    {
        let b = choose|chain: Seq<int>| self.is_chain(m, chain, j, k);
        self.lemma_linked_along(m, i, b, b.len() as int - 1);
    }

    proof fn lemma_linked_along(self, m: nat, i: int, b: Seq<int>, x: int)
        requires
            0 <= x < b.len(),
            self.is_chain(m, b, b[0], b.last()),
            self.linked(m, i, b[0]),
        ensures
            self.linked(m, i, b[x]),
        decreases x,
    {
        if x > 0 {
            self.lemma_linked_along(m, i, b, x - 1);
            assert(self.near(b[x - 1], b[x]));
            self.lemma_linked_step(m, i, b[x - 1], b[x]);
        }
    }

    proof fn lemma_clusters_before_frame(self, m: nat, a: Seq<i32>, b: Seq<i32>, i: nat)
        requires
            forall|k: int| 0 <= k < i && #[trigger] self.dense(m, k) ==> a[k] == b[k],
        ensures
            self.clusters_before(m, a, i) == self.clusters_before(m, b, i),
        decreases i,
    {
        if i > 0 {
            self.lemma_clusters_before_frame(m, a, b, (i - 1) as nat);
        }
    }

    /// A label runs along a chain once neighbouring core points share theirs.
    proof fn lemma_label_along(self, m: nat, labels: Seq<i32>, chain: Seq<int>, x: int)
        requires
            0 <= x < chain.len(),
            self.is_chain(m, chain, chain[0], chain.last()),
            forall|i: int, j: int| #[trigger]
                self.dense(m, i) && #[trigger] self.dense(m, j) && self.near(i, j) ==> labels[i]
                    == labels[j],
        ensures
            labels[chain[x]] == labels[chain[0]],
        decreases x,
    {
        if x > 0 {
            self.lemma_label_along(m, labels, chain, x - 1);
            assert(self.near(chain[x - 1], chain[x]));
            assert(self.dense(m, chain[x - 1]) && self.dense(m, chain[x]));
        }
    }
}

// ---------------------------------------------------------------------------
// Building
// ---------------------------------------------------------------------------

impl Proximity {
    /// No points.
    pub fn new() -> (r: Proximity)
        ensures
            r.wf(),
            r.count() == 0,
    {
        Proximity { rows: Vec::new() }
    }

    /// The number of points.
    pub fn len(&self) -> (r: usize)
        ensures
            r == self.count(),
    {
        self.rows.len()
    }

    /// Adds a point. `flags` says of every earlier point, and last of the new point itself,
    /// whether it lies near the new point. A list of another length, or a point beyond the
    /// largest label, is refused.
    pub fn push(&mut self, flags: Vec<bool>) -> (r: bool)
        requires
            old(self).wf(),
        ensures
            final(self).wf(),
            r == (flags@.len() == old(self).count() + 1 && old(self).count() < i32::MAX),
            !r ==> *final(self) == *old(self),
            r ==> final(self).count() == old(self).count() + 1,
            r ==> forall|i: int, j: int|
                old(self).has(i) && old(self).has(j) ==> final(self).near(i, j) == old(self).near(
                    i,
                    j,
                ),
            r ==> forall|j: int|
                0 <= j < flags@.len() ==> final(self).near(old(self).count() as int, j)
                    == flags@[j] && final(self).near(j, old(self).count() as int) == flags@[j],
    {
        if flags.len() != self.rows.len() + 1 || self.rows.len() >= 0x7fff_ffff {
            return false;
        }
        self.rows.push(flags);
        true
    }

    /// The points `i` and `j` lie near each other.
    fn are_near(&self, i: usize, j: usize) -> (r: bool)
        requires
            self.wf(),
            self.has(i as int),
            self.has(j as int),
        ensures
            r == self.near(i as int, j as int),
    {
        if j <= i {
            self.rows[i][j]
        } else {
            self.rows[j][i]
        }
    }

    /// The points near `idx`, in ascending order.
    pub fn region_query(&self, idx: usize) -> (r: Vec<usize>)
        requires
            self.wf(),
            self.has(idx as int),
        ensures
            r@.map_values(|x: usize| x as int) == self.region(idx as int),
    {
        let mut r: Vec<usize> = Vec::new();
        let mut k: usize = 0;
        assert(self.region_upto(idx as int, 0) == Seq::<int>::empty()) by {
            reveal(Proximity::region_upto);
        }
        while k < self.rows.len()
            invariant
                self.wf(),
                self.has(idx as int),
                k <= self.count(),
                self.count() == self.rows@.len(),
                r@.map_values(|x: usize| x as int) == self.region_upto(idx as int, k as nat),
            decreases self.count() - k,
        {
            let ghost before = r@;
            proof {
                reveal(Proximity::region_upto);
            }
            if self.are_near(idx, k) {
                r.push(k);
                assert(r@.map_values(|x: usize| x as int) == before.map_values(
                    |x: usize| x as int,
                ).push(k as int));
            }
            k += 1;
        }
        r
    }

    /// `region_query` as a statement about the list itself.
    fn region_list(&self, idx: usize) -> (r: Vec<usize>)
        requires
            self.wf(),
            self.has(idx as int),
        ensures
            r@.len() == self.region(idx as int).len(),
            forall|k: int| 0 <= k < r@.len() ==> self.has(#[trigger] r@[k] as int) && self.near(
                idx as int,
                r@[k] as int,
            ),
            forall|x: int|
                self.has(x) && #[trigger] self.near(idx as int, x) ==> r@.contains(x as usize),
            self.count() <= i32::MAX,
    {
        let r = self.region_query(idx);
        let ghost mapped = r@.map_values(|x: usize| x as int);
        proof {
            assert forall|k: int| 0 <= k < r@.len() implies self.has(#[trigger] r@[k] as int)
                && self.near(idx as int, r@[k] as int) by {
                assert(mapped[k] == r@[k]);
                self.lemma_region(idx as int, r@[k] as int);
            }
            assert forall|x: int|
                self.has(x) && #[trigger] self.near(idx as int, x) implies r@.contains(
                x as usize,
            ) by {
                self.lemma_region(idx as int, x);
                let w = mapped.index_of(x);
                assert(r@[w] == x as usize);
            }
        }
        r
    }
}

// ---------------------------------------------------------------------------
// Clustering
// ---------------------------------------------------------------------------

/// `marked` says of each of `n` points whether `seeds` holds it, and `seeds` holds none twice.
spec fn marks(seeds: Seq<usize>, marked: Seq<bool>, n: nat) -> bool {
    &&& marked.len() == n
    &&& forall|k: int| 0 <= k < seeds.len() ==> #[trigger] seeds[k] < n && marked[seeds[k] as int]
    &&& forall|x: int| 0 <= x < n && #[trigger] marked[x] ==> seeds.contains(x as usize)
    &&& seeds.no_duplicates()
}

/// A list of different points is no longer than there are points.
proof fn lemma_seeds_len(seeds: Seq<usize>, n: nat)
    requires
        seeds.no_duplicates(),
        forall|k: int| 0 <= k < seeds.len() ==> #[trigger] seeds[k] < n,
    ensures
        seeds.len() <= n,
{
    let all = vstd::set_lib::set_int_range(0, n as int);
    vstd::set_lib::lemma_int_range(0, n as int);
    let ints = seeds.map_values(|x: usize| x as int);
    assert(ints.no_duplicates()) by {
        assert forall|a: int, b: int| 0 <= a < ints.len() && 0 <= b < ints.len() && a != b implies
            ints[a] != ints[b] by {
            assert(seeds[a] != seeds[b]);
        }
    }
    ints.unique_seq_to_set();
    assert(ints.to_set().subset_of(all)) by {
        assert forall|x: int| ints.to_set().contains(x) implies all.contains(x) by {
            let w = ints.index_of(x);
            assert(seeds[w] < n);
        }
    }
    vstd::set_lib::lemma_len_subset(ints.to_set(), all);
}

/// Appends the points of `more` that `seeds` does not hold yet.
fn add_seeds(seeds: &mut Vec<usize>, marked: &mut Vec<bool>, more: &Vec<usize>)
    requires
        marks(old(seeds)@, old(marked)@, old(marked)@.len()),
        forall|k: int| 0 <= k < more@.len() ==> #[trigger] more@[k] < old(marked)@.len(),
    ensures
        marks(final(seeds)@, final(marked)@, old(marked)@.len()),
        old(seeds)@.len() <= final(seeds)@.len(),
        forall|k: int| 0 <= k < old(seeds)@.len() ==> #[trigger] final(seeds)@[k] == old(seeds)@[k],
        forall|x: int|
            0 <= x < old(marked)@.len() ==> #[trigger] final(marked)@[x] == (old(marked)@[x]
                || more@.contains(x as usize)),
{
    let ghost s0 = seeds@;
    let ghost m0 = marked@;
    let total = marked.len();
    let mut k: usize = 0;
    while k < more.len()
        invariant
            k <= more@.len(),
            total == m0.len(),
            m0.len() == marked@.len(),
            marks(seeds@, marked@, m0.len()),
            forall|j: int| 0 <= j < more@.len() ==> #[trigger] more@[j] < m0.len(),
            s0.len() <= seeds@.len(),
            forall|j: int| 0 <= j < s0.len() ==> #[trigger] seeds@[j] == s0[j],
            forall|x: int|
                0 <= x < m0.len() ==> #[trigger] marked@[x] == (m0[x] || more@.take(
                    k as int,
                ).contains(x as usize)),
        decreases more@.len() - k,
    {
        let next = more[k];
        let ghost seeds1 = seeds@;
        let ghost marked1 = marked@;
        assert(more@.take(k + 1) == more@.take(k as int).push(next));
        if !marked[next] {
            seeds.push(next);
            marked.set(next, true);
            proof {
                assert(!seeds1.contains(next)) by {
                    if seeds1.contains(next) {
                        let w = seeds1.index_of(next);
                        assert(marked1[seeds1[w] as int]);
                    }
                }
                assert forall|x: int| 0 <= x < m0.len() && #[trigger] marked@[x] implies
                    seeds@.contains(x as usize) by {
                    if x == next {
                        assert(seeds@[seeds1.len() as int] == next);
                    } else {
                        assert(marked1[x]);
                        let w = seeds1.index_of(x as usize);
                        assert(seeds@[w] == x as usize);
                    }
                }
            }
        }
        assert forall|x: int| 0 <= x < m0.len() implies #[trigger] marked@[x] == (m0[x]
            || more@.take(k + 1).contains(x as usize)) by {
            let a = more@.take(k as int);
            let b = more@.take(k + 1);
            assert(marked1[x] == (m0[x] || a.contains(x as usize)));
            if a.contains(x as usize) {
                let w = a.index_of(x as usize);
                assert(b[w] == x as usize);
            }
            if x == next {
                assert(b[k as int] == x as usize);
            }
            if b.contains(x as usize) && x != next {
                let w = b.index_of(x as usize);
                assert(a[w] == x as usize);
            }
        }
        k += 1;
    }
    assert(more@.take(k as int) == more@);
}

impl Proximity {
    /// Gives the number `c` to the core point `point` and to everything that it reaches and that
    /// has no cluster yet.
    #[verifier::rlimit(40)]
    fn expand(&self, min_points: usize, labels: &mut Vec<i32>, point: usize, c: i32)
        requires
            self.wf(),
            self.dense(min_points as nat, point as int),
            self.settled(min_points as nat, old(labels)@, c as int),
            old(labels)@[point as int] == UNVISITED,
            0 <= c < i32::MAX,
        ensures
            self.settled(min_points as nat, final(labels)@, c + 1),
            final(labels)@[point as int] == c,
            forall|i: int|
                self.has(i) ==> #[trigger] final(labels)@[i] == old(labels)@[i] || (
                final(labels)@[i] == c && old(labels)@[i] < 0),
    {
        let ghost m = min_points as nat;
        let ghost l0 = labels@;
        let n = self.len();
        let first = self.region_list(point);
        labels.set(point, c);
        let mut seeds: Vec<usize> = Vec::new();
        let mut marked: Vec<bool> = Vec::new();
        let mut k: usize = 0;
        while k < n
            invariant
                k <= n,
                marked@.len() == k,
                forall|x: int| 0 <= x < k ==> !#[trigger] marked@[x],
            decreases n - k,
        {
            marked.push(false);
            k += 1;
        }
        add_seeds(&mut seeds, &mut marked, &first);
        let mut cursor: usize = 0;
        proof {
            self.lemma_linked_refl(m, point as int);
            assert forall|j: int| self.has(j) && #[trigger] marked@[j] implies (exists|i: int|
             #[trigger]
                self.dense(m, i) && labels@[i] == c && self.near(i, j)) by {
                let w = first@.index_of(j as usize);
                assert(first@[w] == j as usize);
                assert(self.dense(m, point as int) && labels@[point as int] == c);
            }
        }
        while cursor < seeds.len()
            invariant
                self.wf(),
                m == min_points as nat,
                n == self.count(),
                self.dense(m, point as int),
                self.settled(m, l0, c as int),
                0 <= c < i32::MAX,
                cursor <= seeds@.len(),
                marks(seeds@, marked@, n as nat),
                labels@.len() == n,
                labels@[point as int] == c,
                forall|i: int|
                    self.has(i) ==> #[trigger] labels@[i] == l0[i] || (labels@[i] == c && l0[i]
                        < 0),
                forall|k: int| 0 <= k < cursor ==> labels@[#[trigger] seeds@[k] as int] >= 0,
                forall|i: int, j: int| #[trigger]
                    self.dense(m, i) && labels@[i] == c && self.has(j) && #[trigger] self.near(i, j)
                        ==> marked@[j],
                forall|j: int|
                    self.has(j) && #[trigger] marked@[j] ==> (exists|i: int| #[trigger]
                        self.dense(m, i) && labels@[i] == c && self.near(i, j)),
                forall|i: int| #[trigger]
                    self.dense(m, i) && labels@[i] == c ==> self.linked(m, point as int, i),
                forall|i: int|
                    self.has(i) && #[trigger] labels@[i] == c && !self.dense(m, i) ==> marked@[i],
            decreases n - cursor,
        {
            let s = seeds[cursor];
            let ghost l1 = labels@;
            let ghost seeds1 = seeds@;
            let ghost marked1 = marked@;
            proof {
                lemma_seeds_len(seeds@, n as nat);
            }
            if labels[s] == NOISE {
                labels.set(s, c);
            }
            if labels[s] == UNVISITED {
                labels.set(s, c);
                let next = self.region_list(s);
                if next.len() >= min_points {
                    proof {
                        let i = choose|i: int| #[trigger]
                            self.dense(m, i) && l1[i] == c && self.near(i, s as int);
                        self.lemma_linked_step(m, point as int, i, s as int);
                    }
                    add_seeds(&mut seeds, &mut marked, &next);
                    assert(self.dense(m, s as int));
                }
            }
            proof {
                assert forall|j: int| self.has(j) && #[trigger] marked@[j] implies (exists|i: int|
                 #[trigger]
                    self.dense(m, i) && labels@[i] == c && self.near(i, j)) by {
                    if marked1[j] {
                        let i = choose|i: int| #[trigger]
                            self.dense(m, i) && l1[i] == c && self.near(i, j);
                        assert(labels@[i] == c);
                    } else {
                        assert(self.near(s as int, j));
                        assert(self.dense(m, s as int) && labels@[s as int] == c);
                    }
                }
                assert forall|i: int, j: int| #[trigger]
                    self.dense(m, i) && labels@[i] == c && self.has(j) && #[trigger] self.near(
                        i,
                        j,
                    ) implies marked@[j] by {
                    if l1[i] == c {
                        assert(marked1[j]);
                    } else {
                        assert(i == s);
                    }
                }
            }
            cursor += 1;
        }
        proof {
            self.lemma_expanded(m, l0, labels@, point as int, c, seeds@, marked@);
        }
    }

    /// When every seed has a label, the cluster is complete.
    proof fn lemma_expanded(
        self,
        m: nat,
        l0: Seq<i32>,
        l: Seq<i32>,
        point: int,
        c: i32,
        seeds: Seq<usize>,
        marked: Seq<bool>,
    )
        requires
            self.settled(m, l0, c as int),
            0 <= c < i32::MAX,
            marks(seeds, marked, self.count()),
            l.len() == self.count(),
            forall|i: int|
                self.has(i) ==> #[trigger] l[i] == l0[i] || (l[i] == c && l0[i] < 0),
            forall|k: int| 0 <= k < seeds.len() ==> l[#[trigger] seeds[k] as int] >= 0,
            forall|i: int, j: int| #[trigger]
                self.dense(m, i) && l[i] == c && self.has(j) && #[trigger] self.near(i, j)
                    ==> marked[j],
            forall|j: int|
                self.has(j) && #[trigger] marked[j] ==> (exists|i: int| #[trigger]
                    self.dense(m, i) && l[i] == c && self.near(i, j)),
            forall|i: int| #[trigger]
                self.dense(m, i) && l[i] == c ==> self.linked(m, point, i),
            forall|i: int| self.has(i) && #[trigger] l[i] == c && !self.dense(m, i) ==> marked[i],
            self.count() <= i32::MAX,
        ensures
            self.settled(m, l, c + 1),
    {
        assert forall|j: int| self.has(j) && #[trigger] marked[j] implies l[j] >= 0 by {
            let w = seeds.index_of(j as usize);
            assert(seeds[w] == j as usize);
        }
        assert forall|i: int, j: int|
            0 <= i < l.len() && #[trigger] l[i] == NOISE && #[trigger] self.dense(m, j) && l[j]
                >= 0 implies !self.near(j, i) by {
            assert(l0[i] == NOISE);
            if self.near(j, i) {
                if l[j] == c {
                    assert(marked[i]);
                } else {
                    assert(l0[j] == l[j]);
                }
            }
        }
        assert forall|i: int, j: int| #[trigger]
            self.dense(m, i) && l[i] >= 0 && self.has(j) && #[trigger] self.near(i, j) implies l[j]
            >= 0 && l[j] <= l[i] && (self.dense(m, j) ==> l[j] == l[i]) by {
            if l[i] == c {
                assert(marked[j]);
                assert(l[j] == l0[j] || l[j] == c);
                if self.dense(m, j) && l[j] != c {
                    self.lemma_symmetric(i, j);
                    assert(l0[j] >= 0);
                    assert(self.near(j, i));
                    assert(l0[i] >= 0);
                    assert(l[i] == l0[i] || l0[i] < 0);
                }
            } else {
                assert(l0[i] == l[i]);
                assert(l0[j] >= 0);
                assert(l[j] == l0[j]);
            }
        }
        assert forall|i: int|
            0 <= i < l.len() && #[trigger] l[i] >= 0 && !self.dense(m, i) implies (exists|j: int|
         #[trigger]
            self.dense(m, j) && self.near(j, i) && l[j] == l[i]) by {
            if l[i] == c {
                assert(marked[i]);
                let j = choose|j: int| #[trigger]
                    self.dense(m, j) && l[j] == c && self.near(j, i);
                assert(self.dense(m, j) && self.near(j, i) && l[j] == l[i]);
            } else {
                assert(l0[i] == l[i]);
                let j = choose|j: int| #[trigger]
                    self.dense(m, j) && self.near(j, i) && l0[j] == l0[i];
                assert(l[j] == l0[j]);
                assert(self.dense(m, j) && self.near(j, i) && l[j] == l[i]);
            }
        }
        assert forall|i: int, j: int| #[trigger]
            self.dense(m, i) && #[trigger] self.dense(m, j) && l[i] == l[j] && l[i]
                >= 0 implies self.linked(m, i, j) by {
            if l[i] == c {
                self.lemma_linked_symmetric(m, point, i);
                self.lemma_linked_transitive(m, i, point, j);
            } else {
                assert(l0[i] == l[i]);
                assert(l0[j] == l[j]);
            }
        }
    }
}

impl Proximity {
    /// The cluster of each point: core points that are linked share a number, other points take
    /// the lowest number among the core points near them, the rest is noise.
    pub fn dbscan(&self, min_points: usize) -> (r: Vec<i32>)
        requires
            self.wf(),
        ensures
            self.is_clustering(min_points as nat, r@),
    {
        let ghost m = min_points as nat;
        let n = self.len();
        let mut labels: Vec<i32> = Vec::new();
        let mut k: usize = 0;
        while k < n
            invariant
                k <= n,
                labels@.len() == k,
                forall|i: int| 0 <= i < k ==> #[trigger] labels@[i] == UNVISITED,
            decreases n - k,
        {
            labels.push(UNVISITED);
            k += 1;
        }
        let mut c: i32 = 0;
        let mut p: usize = 0;
        assert(self.settled(m, labels@, 0));
        while p < n
            invariant
                self.wf(),
                m == min_points as nat,
                n == self.count(),
                n <= i32::MAX,
                p <= n,
                0 <= c <= p,
                self.settled(m, labels@, c as int),
                forall|i: int| 0 <= i < p ==> #[trigger] labels@[i] != UNVISITED,
                forall|i: int|
                    0 <= i < p && #[trigger] self.dense(m, i) ==> 0 <= labels@[i]
                        <= self.clusters_before(m, labels@, i as nat),
                self.clusters_before(m, labels@, p as nat) == c,
            decreases n - p,
        {
            let ghost l0 = labels@;
            if labels[p] == UNVISITED {
                let neighbors = self.region_list(p);
                if neighbors.len() < min_points {
                    labels.set(p, NOISE);
                    proof {
                        assert(!self.dense(m, p as int));
                        self.lemma_noise_set(m, l0, labels@, p as int, c as int);
                        self.lemma_labels_frame(m, l0, labels@, p as nat);
                    }
                } else {
                    assert(self.dense(m, p as int));
                    self.expand(min_points, &mut labels, p, c);
                    proof {
                        self.lemma_labels_frame(m, l0, labels@, p as nat);
                    }
                    c += 1;
                }
            }
            proof {
                self.lemma_clusters_before_frame(m, labels@, l0, p as nat);
                assert((p + 1) as nat - 1 == p);
                assert(self.clusters_before(m, labels@, (p + 1) as nat) == c);
            }
            p += 1;
        }
        proof {
            self.lemma_complete(m, labels@, c as int);
        }
        labels
    }

    /// Marking a point that is no core point as noise leaves everything settled.
    proof fn lemma_noise_set(self, m: nat, l0: Seq<i32>, l: Seq<i32>, p: int, c: int)
        requires
            self.settled(m, l0, c),
            self.has(p),
            l0[p] == UNVISITED,
            !self.dense(m, p),
            l == l0.update(p, NOISE),
        ensures
            self.settled(m, l, c),
    {
        assert forall|i: int, j: int|
            0 <= i < l.len() && #[trigger] l[i] == NOISE && #[trigger] self.dense(m, j) && l[j]
                >= 0 implies !self.near(j, i) by {
            assert(l0[j] == l[j]);
            if i == p && self.near(j, i) {
                assert(l0[i] >= 0);
            }
        }
        assert forall|i: int, j: int| #[trigger]
            self.dense(m, i) && l[i] >= 0 && self.has(j) && #[trigger] self.near(i, j) implies l[j]
            >= 0 && l[j] <= l[i] && (self.dense(m, j) ==> l[j] == l[i]) by {
            assert(l0[i] == l[i]);
            assert(l0[j] >= 0);
        }
        assert forall|i: int|
            0 <= i < l.len() && #[trigger] l[i] >= 0 && !self.dense(m, i) implies (exists|j: int|
         #[trigger]
            self.dense(m, j) && self.near(j, i) && l[j] == l[i]) by {
            assert(l0[i] == l[i]);
            let j = choose|j: int| #[trigger]
                self.dense(m, j) && self.near(j, i) && l0[j] == l0[i];
            assert(self.dense(m, j) && self.near(j, i) && l[j] == l[i]);
        }
        assert forall|i: int, j: int| #[trigger]
            self.dense(m, i) && #[trigger] self.dense(m, j) && l[i] == l[j] && l[i]
                >= 0 implies self.linked(m, i, j) by {
            assert(l0[i] == l[i]);
            assert(l0[j] == l[j]);
        }
    }

    /// A step that leaves the labels of the core points before `p` alone leaves their numbering
    /// alone.
    proof fn lemma_labels_frame(self, m: nat, l0: Seq<i32>, l: Seq<i32>, p: nat)
        requires
            forall|i: int| 0 <= i < p && #[trigger] self.dense(m, i) ==> l[i] == l0[i],
        ensures
            forall|i: int|
                0 <= i <= p ==> #[trigger] self.clusters_before(m, l, i as nat)
                    == self.clusters_before(m, l0, i as nat),
    {
        assert forall|i: int| 0 <= i <= p implies #[trigger] self.clusters_before(m, l, i as nat)
            == self.clusters_before(m, l0, i as nat) by {
            self.lemma_clusters_before_frame(m, l, l0, i as nat);
        }
    }

    /// Once every point has been looked at, the labels are the clustering.
    proof fn lemma_complete(self, m: nat, labels: Seq<i32>, c: int)
        requires
            self.settled(m, labels, c),
            forall|i: int| self.has(i) ==> #[trigger] labels[i] != UNVISITED,
            forall|i: int| #[trigger]
                self.dense(m, i) ==> 0 <= labels[i] <= self.clusters_before(m, labels, i as nat),
        ensures
            self.is_clustering(m, labels),
    {
        assert forall|i: int, j: int| #[trigger]
            self.dense(m, i) && #[trigger] self.dense(m, j) implies (labels[i] == labels[j]
            <==> self.linked(m, i, j)) by {
            if self.linked(m, i, j) {
                let chain = choose|chain: Seq<int>| self.is_chain(m, chain, i, j);
                self.lemma_label_along(m, labels, chain, chain.len() - 1);
            }
        }
        assert forall|i: int|
            #![trigger labels[i]]
            self.has(i) && !self.dense(m, i) && self.reached(m, i) implies (exists|j: int|
         #[trigger]
            self.dense(m, j) && self.near(j, i) && labels[j] == labels[i]) by {
            let j = choose|j: int| #[trigger] self.dense(m, j) && self.near(j, i);
            assert(labels[j] >= 0);
            assert(labels[i] >= 0);
        }
        assert forall|i: int|
            #![trigger labels[i]]
            self.has(i) && !self.dense(m, i) && !self.reached(m, i) implies labels[i] == NOISE by {
            if labels[i] >= 0 {
                let j = choose|j: int| #[trigger]
                    self.dense(m, j) && self.near(j, i) && labels[j] == labels[i];
                assert(self.reached(m, i));
            }
        }
    }
}

// ---------------------------------------------------------------------------
// Kinds of points and groups
// ---------------------------------------------------------------------------

/// The part that a point plays in the clustering.
#[derive(Clone, Copy, Debug, PartialEq, Eq, Structural)]
pub enum PointType {
    Noise,
    Core,
    Border,
}

impl PointType {
    /// The word for the kind of point.
    pub open spec fn word(self) -> Seq<char> {
        match self {
            PointType::Noise => "noise"@,
            PointType::Core => "core"@,
            PointType::Border => "border"@,
        }
    }

    /// The word for the kind of point.
    pub fn as_str(&self) -> (r: &'static str)
        ensures
            r@ == self.word(),
    {
        match self {
            PointType::Noise => "noise",
            PointType::Core => "core",
            PointType::Border => "border",
        }
    }
}

impl Proximity {
    /// The part that a point with the given label plays.
    pub open spec fn type_of(self, min_points: nat, label: i32, i: int) -> PointType {
        if label == NOISE {
            PointType::Noise
        } else if self.dense(min_points, i) {
            PointType::Core
        } else {
            PointType::Border
        }
    }

    /// The part that each point plays under the given labels.
    pub fn point_types(&self, labels: &Vec<i32>, min_points: usize) -> (r: Vec<PointType>)
        requires
            self.wf(),
            labels@.len() >= self.count(),
        ensures
            r@.len() == self.count(),
            forall|i: int|
                0 <= i < r@.len() ==> #[trigger] r@[i] == self.type_of(
                    min_points as nat,
                    labels@[i],
                    i,
                ),
    {
        let n = self.len();
        let mut r: Vec<PointType> = Vec::new();
        let mut i: usize = 0;
        while i < n
            invariant
                self.wf(),
                n == self.count(),
                labels@.len() >= n,
                i <= n,
                r@.len() == i,
                forall|k: int|
                    0 <= k < i ==> #[trigger] r@[k] == self.type_of(
                        min_points as nat,
                        labels@[k],
                        k,
                    ),
            decreases n - i,
        {
            let t = if labels[i] == NOISE {
                PointType::Noise
            } else if self.region_list(i).len() >= min_points {
                PointType::Core
            } else {
                PointType::Border
            };
            r.push(t);
            i += 1;
        }
        r
    }
}

/// The points with one label.
pub struct ClusterGroup {
    pub cluster: i32,
    pub members: Vec<usize>,
}

/// The positions before `k` at which `labels` holds `c`, in ascending order.
pub open spec fn members_upto(labels: Seq<i32>, c: i32, k: nat) -> Seq<int>
    decreases k,
{
    if k == 0 {
        Seq::empty()
    } else {
        let rest = members_upto(labels, c, (k - 1) as nat);
        if labels[k - 1] == c {
            rest.push(k - 1)
        } else {
            rest
        }
    }
}

/// The positions at which `labels` holds `c`, in ascending order.
pub open spec fn members(labels: Seq<i32>, c: i32) -> Seq<int> {
    members_upto(labels, c, labels.len())
}

/// `groups` lists the labels among the first `k` in ascending order, each with its members.
pub open spec fn groups_upto(groups: Seq<ClusterGroup>, labels: Seq<i32>, k: nat) -> bool {
    &&& forall|a: int, b: int|
        0 <= a < b < groups.len() ==> (#[trigger] groups[a]).cluster < (#[trigger]
        groups[b]).cluster
    &&& forall|a: int|
        0 <= a < groups.len() ==> (#[trigger] groups[a]).members@.map_values(|x: usize| x as int)
            == members_upto(labels, groups[a].cluster, k) && groups[a].members@.len() > 0
    &&& forall|i: int|
        0 <= i < k ==> (exists|a: int|
            0 <= a < groups.len() && (#[trigger] groups[a]).cluster == #[trigger] labels[i])
}

/// What a label stands for: noise or a cluster.
pub open spec fn kind_of(cluster: i32) -> Seq<char> {
    if cluster == NOISE {
        "noise"@
    } else {
        "cluster"@
    }
}

/// What a label stands for: noise or a cluster.
pub fn cluster_kind(cluster: i32) -> (r: &'static str)
    ensures
        r@ == kind_of(cluster),
{
    if cluster == NOISE {
        "noise"
    } else {
        "cluster"
    }
}

/// The name of a label: noise, or a cluster with its number.
pub open spec fn name_of(cluster: i32) -> Seq<char> {
    if cluster == NOISE {
        "noise"@
    } else {
        "cluster "@ + signed_decimal(cluster as int)
    }
}

/// The name of a label: noise, or a cluster with its number.
pub fn cluster_name(cluster: i32) -> (r: String)
    ensures
        r@ == name_of(cluster),
{
    if cluster == NOISE {
        "noise".to_owned()
    } else {
        append("cluster ", to_signed_decimal(cluster).as_str())
    }
}

/// The place of a cluster's colour among `colours`, which are used in turn. Noise has none.
pub open spec fn colour_of(cluster: i32, colours: nat) -> Option<int> {
    if cluster == NOISE {
        None
    } else {
        Some(cluster as int % colours as int)
    }
}

/// The place of a cluster's colour among `colours`, which are used in turn. Noise has none.
pub fn palette_index(cluster: i32, colours: usize) -> (r: Option<usize>)
    requires
        colours > 0,
        cluster >= NOISE,
    ensures
        match r {
            Some(i) => cluster != NOISE && i == cluster as int % colours as int,
            None => cluster == NOISE,
        },
        match r {
            Some(i) => colour_of(cluster, colours as nat) == Some(i as int),
            None => colour_of(cluster, colours as nat) is None,
        },
{
    if cluster == NOISE {
        None
    } else {
        Some(cluster as usize % colours)
    }
}

proof fn lemma_no_members(labels: Seq<i32>, c: i32, k: nat)
    requires
        forall|i: int| 0 <= i < k ==> #[trigger] labels[i] != c,
    ensures
        members_upto(labels, c, k) == Seq::<int>::empty(),
    decreases k,
{
    if k > 0 {
        lemma_no_members(labels, c, (k - 1) as nat);
    }
}

/// The points under each label, the labels in ascending order.
pub fn group_by_cluster(labels: &Vec<i32>) -> (r: Vec<ClusterGroup>)
    ensures
        groups_upto(r@, labels@, labels@.len()),
{
    let mut groups: Vec<ClusterGroup> = Vec::new();
    let mut i: usize = 0;
    while i < labels.len()
        invariant
            i <= labels@.len(),
            groups_upto(groups@, labels@, i as nat),
        decreases labels@.len() - i,
    {
        let c = labels[i];
        let mut at: usize = 0;
        while at < groups.len() && groups[at].cluster < c
            invariant
                at <= groups@.len(),
                forall|a: int| 0 <= a < at ==> (#[trigger] groups@[a]).cluster < c,
            decreases groups@.len() - at,
        {
            at += 1;
        }
        let ghost g0 = groups@;
        if at < groups.len() && groups[at].cluster == c {
            let mut found = groups.remove(at);
            let ghost m0 = found.members@;
            found.members.push(i);
            assert(found.members@.map_values(|x: usize| x as int) == m0.map_values(
                |x: usize| x as int,
            ).push(i as int));
            groups.insert(at, found);
            assert(groups@ == g0.update(at as int, found));
        } else {
            let mut fresh: Vec<usize> = Vec::new();
            fresh.push(i);
            let new = ClusterGroup { cluster: c, members: fresh };
            proof {
                assert forall|k: int| 0 <= k < i implies #[trigger] labels@[k] != c by {
                    let a = choose|a: int|
                        0 <= a < g0.len() && (#[trigger] g0[a]).cluster == labels@[k];
                    if a >= at && labels@[k] == c {
                        assert(g0[at as int].cluster <= g0[a].cluster);
                    }
                }
                lemma_no_members(labels@, c, i as nat);
                assert(fresh@.map_values(|x: usize| x as int) == Seq::<int>::empty().push(
                    i as int,
                ));
            }
            groups.insert(at, new);
            assert(groups@ == g0.insert(at as int, new));
        }
        proof {
            lemma_group_step(g0, groups@, labels@, i as nat, at as int);
        }
        i += 1;
    }
    groups
}

/// Filing the next position under its label keeps the list of groups right.
proof fn lemma_group_step(
    g0: Seq<ClusterGroup>,
    g: Seq<ClusterGroup>,
    labels: Seq<i32>,
    i: nat,
    at: int,
)
    requires
        i < labels.len(),
        groups_upto(g0, labels, i),
        0 <= at < g.len(),
        at <= g0.len(),
        g[at].cluster == labels[i as int],
        g[at].members@.map_values(|x: usize| x as int) == members_upto(
            labels,
            labels[i as int],
            i + 1,
        ),
        g[at].members@.len() > 0,
        forall|a: int| 0 <= a < at ==> (#[trigger] g0[a]).cluster < labels[i as int],
        ({
            ||| (at < g0.len() && g0[at].cluster == labels[i as int] && g == g0.update(at, g[at]))
            ||| ((at < g0.len() ==> g0[at].cluster > labels[i as int]) && g == g0.insert(
                at,
                g[at],
            ))
        }),
    ensures
        groups_upto(g, labels, i + 1),
{
    let c = labels[i as int];
    let grown = g.len() == g0.len() + 1;
    assert forall|a: int| 0 <= a < g.len() && a != at implies ({
        let b = if grown && a > at {
            a - 1
        } else {
            a
        };
        #[trigger] g[a] == g0[b] && g[a].cluster != c && (a > at ==> g[a].cluster > c)
    }) by {
        if a > at {
            let b = if grown {
                a - 1
            } else {
                a
            };
            assert(g0[b].cluster >= g0[at].cluster);
        }
    }
    assert forall|a: int, b: int| 0 <= a < b < g.len() implies (#[trigger] g[a]).cluster < (
    #[trigger] g[b]).cluster by {
    }
    assert forall|k: int| 0 <= k < i + 1 implies (exists|a: int|
        0 <= a < g.len() && (#[trigger] g[a]).cluster == #[trigger] labels[k]) by {
        if k == i {
            assert(g[at].cluster == labels[k]);
        } else {
            let a = choose|a: int| 0 <= a < g0.len() && (#[trigger] g0[a]).cluster == labels[k];
            let b = if grown && a >= at {
                a + 1
            } else {
                a
            };
            assert(g[b].cluster == labels[k]);
        }
    }
}

// ---------------------------------------------------------------------------
// Laws
// ---------------------------------------------------------------------------

impl Proximity {
    /// Every cluster number below the count so far belongs to some earlier core point.
    proof fn lemma_numbers_used(self, m: nat, labels: Seq<i32>, i: nat, x: int)
        requires
            0 <= x < self.clusters_before(m, labels, i),
        ensures
            exists|j: int| 0 <= j < i && #[trigger] self.dense(m, j) && labels[j] == x,
        decreases i,
    {
        if i > 0 {
            let rest = self.clusters_before(m, labels, (i - 1) as nat);
            if x < rest {
                self.lemma_numbers_used(m, labels, (i - 1) as nat, x);
                let j = choose|j: int|
                    0 <= j < i - 1 && #[trigger] self.dense(m, j) && labels[j] == x;
                assert(0 <= j < i && self.dense(m, j) && labels[j] == x);
            } else {
                assert(self.dense(m, i - 1) && labels[i - 1] == x);
            }
        }
    }

    #[verifier::spinoff_prover]
    proof fn lemma_core_labels_agree(self, m: nat, a: Seq<i32>, b: Seq<i32>, i: nat)
        requires
            self.is_clustering(m, a),
            self.is_clustering(m, b),
            i <= self.count(),
        ensures
            forall|k: int| 0 <= k < i && #[trigger] self.dense(m, k) ==> a[k] == b[k],
        decreases i,
    {
        if i > 0 {
            let k = i - 1;
            self.lemma_core_labels_agree(m, a, b, k as nat);
            self.lemma_clusters_before_frame(m, a, b, k as nat);
            if self.dense(m, k) {
                let before = self.clusters_before(m, a, k as nat);
                if exists|j: int| 0 <= j < k && #[trigger] self.dense(m, j) && self.linked(m, k, j) {
                    let j = choose|j: int|
                        0 <= j < k && #[trigger] self.dense(m, j) && self.linked(m, k, j);
                    assert(a[k] == a[j]);
                    assert(b[k] == b[j]);
                } else {
                    if a[k] < before {
                        self.lemma_numbers_used(m, a, k as nat, a[k] as int);
                        let j = choose|j: int|
                            0 <= j < k && #[trigger] self.dense(m, j) && a[j] == a[k];
                        assert(self.linked(m, k, j));
                    }
                    if b[k] < before {
                        self.lemma_numbers_used(m, b, k as nat, b[k] as int);
                        let j = choose|j: int|
                            0 <= j < k && #[trigger] self.dense(m, j) && b[j] == b[k];
                        assert(self.linked(m, k, j));
                    }
                }
            }
        }
    }

    proof fn lemma_border_labels_agree(self, m: nat, a: Seq<i32>, b: Seq<i32>, i: int)
        requires
            self.is_clustering(m, a),
            self.is_clustering(m, b),
            forall|k: int| #[trigger] self.dense(m, k) ==> a[k] == b[k],
            self.has(i),
            !self.dense(m, i),
        ensures
            a[i] <= b[i],
    {
        if self.reached(m, i) {
            let k = choose|k: int| #[trigger]
                self.dense(m, k) && self.near(k, i) && b[k] == b[i];
            assert(a[i] <= a[k]);
        } else {
            assert(a[i] == NOISE && b[i] == NOISE);
        }
    }

    /// The points have one clustering only.
    pub proof fn law_clustering_unique(self, min_points: nat, a: Seq<i32>, b: Seq<i32>)
        requires
            self.is_clustering(min_points, a),
            self.is_clustering(min_points, b),
        ensures
            a == b,
    {
        self.lemma_core_labels_agree(min_points, a, b, self.count());
        assert forall|i: int| 0 <= i < a.len() implies a[i] == b[i] by {
            if !self.dense(min_points, i) {
                self.lemma_border_labels_agree(min_points, a, b, i);
                self.lemma_border_labels_agree(min_points, b, a, i);
            }
        }
        assert(a == b);
    }

    /// Noise are exactly the points that are no core points and have none near them.
    pub proof fn law_noise(self, min_points: nat, labels: Seq<i32>, i: int)
        requires
            self.is_clustering(min_points, labels),
            self.has(i),
        ensures
            labels[i] == NOISE <==> !self.dense(min_points, i) && !self.reached(min_points, i),
            labels[i] >= NOISE,
    {
        if !self.dense(min_points, i) && self.reached(min_points, i) {
            let j = choose|j: int| #[trigger]
                self.dense(min_points, j) && self.near(j, i) && labels[j] == labels[i];
            assert(labels[j] >= 0);
        }
    }

    /// Cluster numbers have no gaps: every number up to that of a point belongs to a core point.
    pub proof fn law_cluster_numbers(self, min_points: nat, labels: Seq<i32>, i: int, c: int)
        requires
            self.is_clustering(min_points, labels),
            self.has(i),
            0 <= c <= labels[i],
        ensures
            exists|j: int| #[trigger] self.dense(min_points, j) && labels[j] == c,
    {
        let m = min_points;
        let top = if self.dense(m, i) {
            i
        } else {
            self.law_noise(m, labels, i);
            choose|j: int| #[trigger] self.dense(m, j) && self.near(j, i) && labels[j] == labels[i]
        };
        assert(self.dense(m, top) && labels[top] == labels[i]);
        if c < labels[top] {
            self.lemma_numbers_used(m, labels, top as nat, c);
        }
    }
}

impl Proximity {
    /// The region of a point is the list of all points near it, in ascending order.
    pub proof fn law_region_picked(self, i: int)
        ensures
            self.region(i) == Seq::new(self.count(), |j: int| j).filter(|j: int| self.near(i, j)),
    {
        self.lemma_region_picked(i, self.count());
    }

    proof fn lemma_region_picked(self, i: int, k: nat)
        ensures
            self.region_upto(i, k) == Seq::new(k, |j: int| j).filter(|j: int| self.near(i, j)),
        decreases k,
    {
        reveal(Seq::filter);
        reveal_with_fuel(Proximity::region_upto, 2);
        let all = Seq::new(k, |j: int| j);
        if k > 0 {
            self.lemma_region_picked(i, (k - 1) as nat);
            assert(all.drop_last() == Seq::new((k - 1) as nat, |j: int| j));
        } else {
            assert(self.region_upto(i, k) == all.filter(|j: int| self.near(i, j)));
        }
    }

    /// A point is a core point exactly when at least `min_points` points lie near it, itself counted
    /// where it lies near itself.
    pub proof fn law_core_points_told(self, min_points: nat, i: int)
        ensures
            self.dense(min_points, i) <==> 0 <= i < self.count() && Seq::new(
                self.count(),
                |j: int| j,
            ).filter(|j: int| self.near(i, j)).len() >= min_points,
    {
        self.law_region_picked(i);
    }

    /// Two core points near each other have the same label, and a point near a core point is no
    /// noise.
    pub proof fn law_neighbours_share(self, min_points: nat, labels: Seq<i32>, i: int, j: int)
        requires
            self.is_clustering(min_points, labels),
            self.dense(min_points, i),
            self.has(j),
            self.near(i, j),
        ensures
            self.dense(min_points, j) ==> labels[i] == labels[j],
            0 <= labels[j] <= labels[i],
    {
        self.law_noise(min_points, labels, j);
        self.law_noise(min_points, labels, i);
        if self.dense(min_points, j) {
            self.lemma_linked_refl(min_points, i);
            self.lemma_linked_step(min_points, i, i, j);
        }
    }

    /// The first core point has the label 0.
    pub proof fn law_first_cluster(self, min_points: nat, labels: Seq<i32>, i: int)
        requires
            self.is_clustering(min_points, labels),
            self.dense(min_points, i),
            forall|k: int| 0 <= k < i ==> !#[trigger] self.dense(min_points, k),
        ensures
            labels[i] == 0,
    {
        self.lemma_no_clusters_before(min_points, labels, i as nat);
    }

    proof fn lemma_no_clusters_before(self, m: nat, labels: Seq<i32>, i: nat)
        requires
            forall|k: int| 0 <= k < i ==> !#[trigger] self.dense(m, k),
        ensures
            self.clusters_before(m, labels, i) == 0,
        decreases i,
    {
        if i > 0 {
            self.lemma_no_clusters_before(m, labels, (i - 1) as nat);
        }
    }

    /// A point is noise, a core point or at the border of a cluster, told by its label and by how
    /// many points lie near it.
    pub proof fn law_kinds_of_points(self, min_points: nat, label: i32, i: int)
        requires
            self.has(i),
        ensures
            self.type_of(min_points, label, i) == PointType::Noise <==> label == -1,
            self.type_of(min_points, label, i) == PointType::Core <==> label != -1 && self.region(
                i,
            ).len() >= min_points,
            self.type_of(min_points, label, i) == PointType::Border <==> label != -1 && self.region(
                i,
            ).len() < min_points,
    {
    }
}

/// The members of a label are all points that have it, in ascending order.
pub proof fn law_members_picked(labels: Seq<i32>, c: i32)
    ensures
        members(labels, c) == Seq::new(labels.len(), |i: int| i).filter(|i: int| labels[i] == c),
{
    lemma_members_picked(labels, c, labels.len());
}

proof fn lemma_members_picked(labels: Seq<i32>, c: i32, k: nat)
    ensures
        members_upto(labels, c, k) == Seq::new(k, |i: int| i).filter(|i: int| labels[i] == c),
    decreases k,
{
    reveal(Seq::filter);
    let all = Seq::new(k, |i: int| i);
    if k > 0 {
        lemma_members_picked(labels, c, (k - 1) as nat);
        assert(all.drop_last() == Seq::new((k - 1) as nat, |i: int| i));
    } else {
        assert(members_upto(labels, c, k) == all.filter(|i: int| labels[i] == c));
    }
}

/// Noise goes by its own name, and a cluster by its number, so different labels have different
/// names.
pub proof fn law_names_of_labels(a: i32, b: i32)
    requires
        a >= -1,
        b >= -1,
    ensures
        a == -1 ==> name_of(a) == "noise"@,
        a == -1 ==> kind_of(a) == "noise"@,
        a >= 0 ==> name_of(a) == "cluster "@ + decimal(a as nat),
        a >= 0 ==> kind_of(a) == "cluster"@,
        name_of(a) == name_of(b) ==> a == b,
{
    reveal_strlit("noise");
    reveal_strlit("cluster ");
    if a >= 0 && b >= 0 && name_of(a) == name_of(b) {
        let (x, y) = (decimal(a as nat), decimal(b as nat));
        assert(name_of(a).skip(8) == x);
        assert(name_of(b).skip(8) == y);
        law_decimal_injective(a as nat, b as nat);
    }
    if a >= 0 {
        assert(name_of(a)[0] == 'c');
    }
    if b >= 0 {
        assert(name_of(b)[0] == 'c');
    }
}

/// The first cluster has the first colour, each further one the next, and after the last colour
/// comes the first again. Noise has none.
pub proof fn law_colours_in_turn(cluster: i32, next: i32, colours: nat)
    requires
        cluster >= 0,
        next == cluster + 1,
        colours > 0,
    ensures
        cluster == 0 ==> colour_of(cluster, colours) == Some(0int),
        0 <= colour_of(cluster, colours)->0 < colours,
        colour_of(next, colours) == Some(
            if colour_of(cluster, colours)->0 + 1 == colours {
                0
            } else {
                colour_of(cluster, colours)->0 + 1
            },
        ),
        colour_of(-1i32, colours) is None,
{
    let (c, k) = (cluster as int, colours as int);
    let q = c / k;
    let r = c % k;
    assert((c + 1) % k == if r + 1 == k {
        0
    } else {
        r + 1
    }) by (nonlinear_arith)
        requires
            c >= 0,
            k > 0,
            q == c / k,
            r == c % k,
    {
        assert(c == q * k + r && 0 <= r < k);
        if r + 1 == k {
            assert(c + 1 == (q + 1) * k);
            assert(((q + 1) * k) % k == 0);
        } else {
            assert(c + 1 == q * k + (r + 1));
            assert((q * k + (r + 1)) % k == r + 1);
        }
    }
    assert(c == 0 ==> c % k == 0) by (nonlinear_arith)
        requires
            k > 0,
    ;
}

impl Proximity {
    /// A point of a cluster that is no core point has the label of a core point near it.
    pub proof fn law_border_joins_near(self, min_points: nat, labels: Seq<i32>, i: int)
        requires
            self.is_clustering(min_points, labels),
            self.has(i),
            !self.dense(min_points, i),
            labels[i] != -1,
        ensures
            exists|j: int| #[trigger]
                self.dense(min_points, j) && self.near(j, i) && labels[j] == labels[i],
    {
        self.law_noise(min_points, labels, i);
    }

    proof fn lemma_chain_inside(
        self,
        m: nat,
        inside: spec_fn(int) -> bool,
        chain: Seq<int>,
        x: int,
    )
        requires
            0 <= x < chain.len(),
            self.is_chain(m, chain, chain[0], chain.last()),
            inside(chain[0]),
            forall|a: int, b: int| #[trigger]
                self.dense(m, a) && #[trigger] self.dense(m, b) && self.near(a, b) && inside(a)
                    ==> inside(b),
        ensures
            inside(chain[x]),
        decreases x,
    {
        if x > 0 {
            self.lemma_chain_inside(m, inside, chain, x - 1);
            assert(self.near(chain[x - 1], chain[x]));
            assert(self.dense(m, chain[x - 1]) && self.dense(m, chain[x]));
        }
    }

    /// Core points that nothing leads between have different labels: where no core point of a set
    /// lies near one outside it, no label stands on both sides.
    pub proof fn law_separate_clusters(
        self,
        min_points: nat,
        labels: Seq<i32>,
        inside: spec_fn(int) -> bool,
        i: int,
        j: int,
    )
        requires
            self.is_clustering(min_points, labels),
            self.dense(min_points, i),
            self.dense(min_points, j),
            inside(i),
            !inside(j),
            forall|a: int, b: int| #[trigger]
                self.dense(min_points, a) && #[trigger] self.dense(min_points, b) && self.near(a, b)
                    && inside(a) ==> inside(b),
        ensures
            labels[i] != labels[j],
    {
        if labels[i] == labels[j] {
            assert(self.linked(min_points, i, j));
            let chain = choose|chain: Seq<int>| self.is_chain(min_points, chain, i, j);
            self.lemma_chain_inside(min_points, inside, chain, chain.len() - 1);
        }
    }

    proof fn lemma_labels_below(self, m: nat, labels: Seq<i32>, k: int, i: nat)
        requires
            self.is_clustering(m, labels),
            self.dense(m, k),
            k < i,
        ensures
            labels[k] < self.clusters_before(m, labels, i),
        decreases i,
    {
        if k == i - 1 {
            assert(labels[k] <= self.clusters_before(m, labels, k as nat));
        } else {
            self.lemma_labels_below(m, labels, k, (i - 1) as nat);
        }
    }

    /// Clusters are numbered in the order of their first core points: a core point that shares its
    /// label with none before it has a label above all of theirs.
    pub proof fn law_clusters_in_order(self, min_points: nat, labels: Seq<i32>, i: int, k: int)
        requires
            self.is_clustering(min_points, labels),
            self.dense(min_points, i),
            forall|j: int| 0 <= j < i && #[trigger] self.dense(min_points, j) ==> labels[j]
                != labels[i],
            0 <= k < i,
            self.dense(min_points, k),
        ensures
            labels[k] < labels[i],
    {
        let before = self.clusters_before(min_points, labels, i as nat);
        self.lemma_labels_below(min_points, labels, k, i as nat);
        if labels[i] < before {
            self.lemma_numbers_used(min_points, labels, i as nat, labels[i] as int);
        }
    }
}

proof fn lemma_member(labels: Seq<i32>, c: i32, k: nat, i: int)
    requires
        k <= labels.len(),
    ensures
        members_upto(labels, c, k).contains(i) <==> 0 <= i < k && labels[i] == c,
    decreases k,
{
    if k > 0 {
        lemma_member(labels, c, (k - 1) as nat, i);
        let rest = members_upto(labels, c, (k - 1) as nat);
        let all = members_upto(labels, c, k);
        if rest.contains(i) {
            let w = rest.index_of(i);
            assert(all[w] == i);
        }
        if i == k - 1 && labels[i] == c {
            assert(all[all.len() - 1] == i);
        }
        if all.contains(i) {
            let w = all.index_of(i);
            if w < rest.len() {
                assert(rest[w] == i);
            }
        }
    }
}

/// Every point is in a group of its label, a group has points of its label only, and the groups
/// stand in the order of their labels, none of them twice and none empty.
pub proof fn law_points_grouped(
    groups: Seq<ClusterGroup>,
    labels: Seq<i32>,
    i: int,
    a: int,
    b: int,
    k: int,
)
    requires
        groups_upto(groups, labels, labels.len()),
    ensures
        0 <= i < labels.len() ==> exists|g: int|
            0 <= g < groups.len() && (#[trigger] groups[g]).cluster == labels[i]
                && groups[g].members@.map_values(|x: usize| x as int).contains(i),
        0 <= a < groups.len() && 0 <= k < groups[a].members@.len() ==> groups[a].members@[k]
            < labels.len() && labels[groups[a].members@[k] as int] == groups[a].cluster,
        0 <= a < b < groups.len() ==> groups[a].cluster < groups[b].cluster,
        0 <= a < groups.len() ==> groups[a].members@.len() > 0,
{
    let number = |x: usize| x as int;
    if 0 <= i < labels.len() {
        assert(labels[i] == labels[i]);
        let g = choose|g: int| 0 <= g < groups.len() && (#[trigger] groups[g]).cluster == labels[i];
        lemma_member(labels, labels[i], labels.len(), i);
        assert(groups[g].members@.map_values(number).contains(i));
    }
    if 0 <= a < groups.len() && 0 <= k < groups[a].members@.len() {
        let m = members_upto(labels, groups[a].cluster, labels.len());
        assert(groups[a].members@.map_values(number) == m);
        assert(groups[a].members@.map_values(number)[k] == groups[a].members@[k] as int);
        assert(m.contains(m[k]));
        lemma_member(labels, groups[a].cluster, labels.len(), m[k]);
    }
}

} // verus!
