//! Stable sorting.

use crate::text::chars_of;
use vstd::prelude::*;

verus! {

/// A type whose values stand in an order. Different values may stand at the same place.
pub trait Ranked: Sized {
    /// `self` may stand before `other`.
    spec fn le(self, other: Self) -> bool;

    /// Of two values, one may stand before the other.
    proof fn le_total(a: Self, b: Self)
        ensures
            a.le(b) || b.le(a),
    ;

    /// The order carries over.
    proof fn le_transitive(a: Self, b: Self, c: Self)
        requires
            a.le(b),
            b.le(c),
        ensures
            a.le(c),
    ;

    /// `self` may stand before `other`.
    fn is_le(&self, other: &Self) -> (r: bool)
        ensures
            r == self.le(*other),
    ;
}

// ---------------------------------------------------------------------------
// Specification
// ---------------------------------------------------------------------------

/// Of two values one may stand before the other, and the order carries over.
pub open spec fn preorder<T>(le: spec_fn(T, T) -> bool) -> bool {
    &&& forall|a: T, b: T| #[trigger] le(a, b) || le(b, a)
    &&& forall|a: T, b: T, c: T| #[trigger] le(a, b) && #[trigger] le(b, c) ==> le(a, c)
}

/// The order of a ranked type.
pub open spec fn rank<T: Ranked>() -> spec_fn(T, T) -> bool {
    |a: T, b: T| a.le(b)
}

/// `s` with `x` put in behind everything that may stand before it, seen from the end.
pub open spec fn inserted<T>(s: Seq<T>, x: T, le: spec_fn(T, T) -> bool) -> Seq<T>
    decreases s.len(),
{
    if s.len() == 0 || le(s.last(), x) {
        s.push(x)
    } else {
        inserted(s.drop_last(), x, le).push(s.last())
    }
}

/// The values of `s` in order; values at the same place keep the order that they have in `s`.
pub open spec fn sorted<T>(s: Seq<T>, le: spec_fn(T, T) -> bool) -> Seq<T>
    decreases s.len(),
{
    if s.len() == 0 {
        s
    } else {
        inserted(sorted(s.drop_last(), le), s.last(), le)
    }
}

/// Nothing in `s` stands behind something that must come later.
pub open spec fn in_order<T>(s: Seq<T>, le: spec_fn(T, T) -> bool) -> bool {
    forall|i: int, j: int| 0 <= i < j < s.len() ==> le(#[trigger] s[i], #[trigger] s[j])
}

/// Two sequences merged from the end; of two values at the same place that of `b` comes later.
spec fn merged<T>(a: Seq<T>, b: Seq<T>, le: spec_fn(T, T) -> bool) -> Seq<T>
    decreases a.len() + b.len(),
{
    if a.len() == 0 {
        b
    } else if b.len() == 0 {
        a
    } else if le(a.last(), b.last()) {
        merged(a, b.drop_last(), le).push(b.last())
    } else {
        merged(a.drop_last(), b, le).push(a.last())
    }
}

// ---------------------------------------------------------------------------
// Lemmas
// ---------------------------------------------------------------------------

/// A ranked type has a proper order.
pub proof fn lemma_rank<T: Ranked>()
    ensures
        preorder(rank::<T>()),
{
    let le = rank::<T>();
    assert forall|a: T, b: T| #[trigger] le(a, b) || le(b, a) by {
        T::le_total(a, b);
    }
    assert forall|a: T, b: T, c: T| #[trigger] le(a, b) && #[trigger] le(b, c) implies le(a, c) by {
        T::le_transitive(a, b, c);
    }
}

proof fn lemma_merged_last<T>(a: Seq<T>, b: Seq<T>, le: spec_fn(T, T) -> bool)
    requires
        a.len() + b.len() > 0,
    ensures
        merged(a, b, le).len() == a.len() + b.len(),
        a.len() == 0 ==> merged(a, b, le).last() == b.last(),
        b.len() == 0 ==> merged(a, b, le).last() == a.last(),
        a.len() > 0 && b.len() > 0 ==> merged(a, b, le).last() == (if le(a.last(), b.last()) {
            b.last()
        } else {
            a.last()
        }),
    decreases a.len() + b.len(),
{
    if a.len() > 0 && b.len() > 0 {
        if le(a.last(), b.last()) {
            lemma_merged_last(a, b.drop_last(), le);
        } else {
            lemma_merged_last(a.drop_last(), b, le);
        }
    }
}

/// Inserting into a merge is merging with what was inserted into the second sequence.
proof fn lemma_insert_merged<T>(a: Seq<T>, b: Seq<T>, x: T, le: spec_fn(T, T) -> bool)
    requires
        preorder(le),
    ensures
        inserted(merged(a, b, le), x, le) == merged(a, inserted(b, x, le), le),
    decreases a.len() + b.len(),
{
    if a.len() == 0 {
    } else if b.len() == 0 {
        assert(inserted(b, x, le) == seq![x]);
        assert(seq![x].drop_last() == b);
        if le(a.last(), x) {
            assert(merged(a, seq![x], le) == merged(a, b, le).push(x));
        } else {
            lemma_insert_merged(a.drop_last(), b, x, le);
            assert(merged(a.drop_last(), b, le) == a.drop_last());
        }
    } else {
        lemma_merged_last(a, b, le);
        let al = a.last();
        let bl = b.last();
        if le(bl, x) {
            assert(inserted(b, x, le).drop_last() == b);
            if le(al, x) {
                assert(merged(a, inserted(b, x, le), le) == merged(a, b, le).push(x));
            } else {
                assert(!le(al, bl));
                lemma_insert_merged(a.drop_last(), b, x, le);
                assert(merged(a, b, le).drop_last() == merged(a.drop_last(), b, le));
            }
        } else {
            assert(inserted(b, x, le).drop_last() == inserted(b.drop_last(), x, le));
            assert(inserted(b, x, le).last() == bl);
            if le(al, bl) {
                lemma_insert_merged(a, b.drop_last(), x, le);
                assert(merged(a, b, le).drop_last() == merged(a, b.drop_last(), le));
            } else {
                assert(le(bl, al));
                assert(!le(al, x));
                lemma_insert_merged(a.drop_last(), b, x, le);
                assert(merged(a, b, le).drop_last() == merged(a.drop_last(), b, le));
            }
        }
    }
}

/// Sorting two sequences together is merging them after sorting each.
proof fn lemma_sorted_concat<T>(a: Seq<T>, b: Seq<T>, le: spec_fn(T, T) -> bool)
    requires
        preorder(le),
    ensures
        sorted(a + b, le) == merged(sorted(a, le), sorted(b, le), le),
    decreases b.len(),
{
    if b.len() == 0 {
        assert(a + b == a);
        lemma_sorted_len(a, le);
    } else {
        assert((a + b).drop_last() == a + b.drop_last());
        lemma_sorted_concat(a, b.drop_last(), le);
        lemma_insert_merged(sorted(a, le), sorted(b.drop_last(), le), b.last(), le);
    }
}

proof fn lemma_inserted_len<T>(s: Seq<T>, x: T, le: spec_fn(T, T) -> bool)
    ensures
        inserted(s, x, le).len() == s.len() + 1,
    decreases s.len(),
{
    if s.len() > 0 && !le(s.last(), x) {
        lemma_inserted_len(s.drop_last(), x, le);
    }
}

proof fn lemma_sorted_len<T>(s: Seq<T>, le: spec_fn(T, T) -> bool)
    ensures
        sorted(s, le).len() == s.len(),
    decreases s.len(),
{
    if s.len() > 0 {
        lemma_sorted_len(s.drop_last(), le);
        lemma_inserted_len(sorted(s.drop_last(), le), s.last(), le);
    }
}

proof fn lemma_inserted_order<T>(s: Seq<T>, x: T, le: spec_fn(T, T) -> bool)
    requires
        preorder(le),
        in_order(s, le),
    ensures
        in_order(inserted(s, x, le), le),
        forall|i: int|
            0 <= i < inserted(s, x, le).len() ==> #[trigger] inserted(s, x, le)[i] == x
                || s.contains(inserted(s, x, le)[i]),
    decreases s.len(),
{
    if s.len() == 0 {
    } else if le(s.last(), x) {
        let r = s.push(x);
        assert forall|i: int, j: int| 0 <= i < j < r.len() implies le(
            #[trigger] r[i],
            #[trigger] r[j],
        ) by {
            if j == s.len() && i < s.len() - 1 {
                assert(le(s[i], s[s.len() - 1]));
            }
        }
        assert forall|i: int| 0 <= i < r.len() implies #[trigger] r[i] == x || s.contains(r[i]) by {
            if i < s.len() {
                assert(s[i] == r[i]);
            }
        }
    } else {
        let rest = s.drop_last();
        lemma_inserted_order(rest, x, le);
        let front = inserted(rest, x, le);
        let r = front.push(s.last());
        assert(le(x, s.last()));
        assert forall|i: int| 0 <= i < front.len() implies le(#[trigger] front[i], s.last()) && (
        front[i] == x || s.contains(front[i])) by {
            assert(s[s.len() - 1] == s.last());
            if front[i] != x {
                let w = rest.index_of(front[i]);
                assert(rest[w] == s[w]);
                assert(le(s[w], s[s.len() - 1]));
            }
        }
        assert forall|i: int, j: int| 0 <= i < j < r.len() implies le(
            #[trigger] r[i],
            #[trigger] r[j],
        ) by {
            if j == front.len() {
                assert(r[i] == front[i]);
            } else {
                assert(r[i] == front[i] && r[j] == front[j]);
            }
        }
        assert forall|i: int| 0 <= i < r.len() implies #[trigger] r[i] == x || s.contains(r[i]) by {
            if i < front.len() {
                assert(front[i] == r[i]);
            } else {
                assert(s[s.len() - 1] == r[i]);
            }
        }
    }
}

proof fn lemma_inserted_values<T>(s: Seq<T>, x: T, le: spec_fn(T, T) -> bool)
    ensures
        inserted(s, x, le).to_multiset() == s.to_multiset().insert(x),
    decreases s.len(),
{
    broadcast use vstd::seq_lib::group_to_multiset_ensures;

    if s.len() > 0 && !le(s.last(), x) {
        lemma_inserted_values(s.drop_last(), x, le);
        assert(s.drop_last().push(s.last()) == s);
        assert(s.to_multiset() == s.drop_last().to_multiset().insert(s.last()));
        assert(inserted(s, x, le).to_multiset() == inserted(
            s.drop_last(),
            x,
            le,
        ).to_multiset().insert(s.last()));
        assert(s.drop_last().to_multiset().insert(x).insert(s.last())
            == s.drop_last().to_multiset().insert(s.last()).insert(x));
    }
}

proof fn lemma_inserted_same_place<T>(
    s: Seq<T>,
    x: T,
    le: spec_fn(T, T) -> bool,
    p: spec_fn(T) -> bool,
)
    requires
        forall|a: T, b: T| #[trigger] p(a) && #[trigger] p(b) ==> le(a, b),
    ensures
        inserted(s, x, le).filter(p) == s.push(x).filter(p),
    decreases s.len(),
{
    reveal(Seq::filter);
    if s.len() > 0 && !le(s.last(), x) {
        let rest = s.drop_last();
        lemma_inserted_same_place(rest, x, le, p);
        assert(rest.push(x).drop_last() == rest);
        assert(s.push(x).drop_last() == s);
        assert(inserted(s, x, le).drop_last() == inserted(rest, x, le));
        assert(inserted(s, x, le).filter(p) == if p(s.last()) {
            inserted(rest, x, le).filter(p).push(s.last())
        } else {
            inserted(rest, x, le).filter(p)
        });
        assert(rest.push(x).filter(p) == if p(x) {
            rest.filter(p).push(x)
        } else {
            rest.filter(p)
        });
        assert(s.filter(p) == if p(s.last()) {
            rest.filter(p).push(s.last())
        } else {
            rest.filter(p)
        });
        assert(s.push(x).filter(p) == if p(x) {
            s.filter(p).push(x)
        } else {
            s.filter(p)
        });
        assert(!(p(s.last()) && p(x)));
    }
}

proof fn lemma_inserted_map<T, U>(
    s: Seq<T>,
    x: T,
    le: spec_fn(T, T) -> bool,
    f: spec_fn(T) -> U,
    le2: spec_fn(U, U) -> bool,
)
    requires
        forall|a: T, b: T| #[trigger] le(a, b) == le2(f(a), f(b)),
    ensures
        inserted(s, x, le).map_values(f) == inserted(s.map_values(f), f(x), le2),
    decreases s.len(),
{
    if s.len() == 0 || le(s.last(), x) {
        assert(s.push(x).map_values(f) == s.map_values(f).push(f(x)));
        if s.len() > 0 {
            assert(s.map_values(f).last() == f(s.last()));
        }
    } else {
        lemma_inserted_map(s.drop_last(), x, le, f, le2);
        assert(s.map_values(f).last() == f(s.last()));
        assert(s.drop_last().map_values(f) == s.map_values(f).drop_last());
        assert(inserted(s, x, le).map_values(f) == inserted(s.drop_last(), x, le).map_values(
            f,
        ).push(f(s.last())));
    }
}

/// Sorting values and then looking at one side of them is sorting what is seen there.
pub proof fn lemma_sorted_map<T, U>(
    s: Seq<T>,
    le: spec_fn(T, T) -> bool,
    f: spec_fn(T) -> U,
    le2: spec_fn(U, U) -> bool,
)
    requires
        forall|a: T, b: T| #[trigger] le(a, b) == le2(f(a), f(b)),
    ensures
        sorted(s, le).map_values(f) == sorted(s.map_values(f), le2),
    decreases s.len(),
{
    if s.len() == 0 {
        assert(s.map_values(f) == Seq::<U>::empty());
        assert(sorted(s, le).map_values(f) == Seq::<U>::empty());
    } else {
        lemma_sorted_map(s.drop_last(), le, f, le2);
        lemma_inserted_map(sorted(s.drop_last(), le), s.last(), le, f, le2);
        assert(s.map_values(f).drop_last() == s.drop_last().map_values(f));
        assert(s.map_values(f).last() == f(s.last()));
    }
}

// ---------------------------------------------------------------------------
// Laws
// ---------------------------------------------------------------------------

/// Sorting puts the values in order.
pub proof fn law_sorted_in_order<T>(s: Seq<T>, le: spec_fn(T, T) -> bool)
    requires
        preorder(le),
    ensures
        in_order(sorted(s, le), le),
    decreases s.len(),
{
    if s.len() > 0 {
        law_sorted_in_order(s.drop_last(), le);
        lemma_inserted_order(sorted(s.drop_last(), le), s.last(), le);
    }
}

/// Sorting neither adds nor drops a value.
pub proof fn law_sorted_keeps_values<T>(s: Seq<T>, le: spec_fn(T, T) -> bool)
    ensures
        sorted(s, le).to_multiset() == s.to_multiset(),
        sorted(s, le).len() == s.len(),
    decreases s.len(),
{
    broadcast use vstd::seq_lib::group_to_multiset_ensures;

    lemma_sorted_len(s, le);
    if s.len() > 0 {
        law_sorted_keeps_values(s.drop_last(), le);
        lemma_inserted_values(sorted(s.drop_last(), le), s.last(), le);
        assert(s.drop_last().push(s.last()) == s);
    }
}

/// Sorting is stable: values that stand at the same place keep their order.
pub proof fn law_sorted_stable<T>(s: Seq<T>, le: spec_fn(T, T) -> bool, p: spec_fn(T) -> bool)
    requires
        forall|a: T, b: T| #[trigger] p(a) && #[trigger] p(b) ==> le(a, b),
    ensures
        sorted(s, le).filter(p) == s.filter(p),
    decreases s.len(),
{
    reveal(Seq::filter);
    if s.len() > 0 {
        let rest = sorted(s.drop_last(), le);
        law_sorted_stable(s.drop_last(), le, p);
        lemma_inserted_same_place(rest, s.last(), le, p);
        assert(rest.push(s.last()).drop_last() == rest);
    }
}

/// Two sequences of the same values that are both in order are the same, where values at the same
/// place are.
pub proof fn law_order_unique<T>(s: Seq<T>, t: Seq<T>, le: spec_fn(T, T) -> bool)
    requires
        preorder(le),
        in_order(s, le),
        in_order(t, le),
        s.to_multiset() == t.to_multiset(),
        forall|i: int, j: int|
            0 <= i < s.len() && 0 <= j < s.len() && le(#[trigger] s[i], #[trigger] s[j]) && le(
                s[j],
                s[i],
            ) ==> s[i] == s[j],
    ensures
        s == t,
    decreases s.len(),
{
    broadcast use vstd::seq_lib::group_to_multiset_ensures;

    assert(s.len() == s.to_multiset().len() && t.len() == t.to_multiset().len());
    if s.len() == 0 {
        assert(s == t);
    } else {
        let (x, y) = (s.last(), t.last());
        assert(s.contains(x) && t.contains(y)) by {
            assert(s[s.len() - 1] == x);
            assert(t[t.len() - 1] == y);
        }
        assert(s.to_multiset().contains(x) && s.to_multiset().contains(y));
        assert(t.contains(x) && s.contains(y));
        let i = choose|i: int| 0 <= i < s.len() && s[i] == y;
        let j = choose|j: int| 0 <= j < t.len() && t[j] == x;
        assert(le(x, x) && le(y, y));
        assert(le(s[i], s[s.len() - 1]));
        assert(le(t[j], t[t.len() - 1]));
        assert(s[i] == s[s.len() - 1]);
        assert(x == y);
        let (a, b) = (s.drop_last(), t.drop_last());
        assert(a == s.remove(s.len() - 1) && b == t.remove(t.len() - 1));
        assert forall|p: int, q: int| 0 <= p < q < a.len() implies le(
            #[trigger] a[p],
            #[trigger] a[q],
        ) by {
            assert(le(s[p], s[q]));
        }
        assert forall|p: int, q: int| 0 <= p < q < b.len() implies le(
            #[trigger] b[p],
            #[trigger] b[q],
        ) by {
            assert(le(t[p], t[q]));
        }
        assert forall|p: int, q: int|
            0 <= p < a.len() && 0 <= q < a.len() && le(#[trigger] a[p], #[trigger] a[q]) && le(
                a[q],
                a[p],
            ) implies a[p] == a[q] by {
            assert(a[p] == s[p] && a[q] == s[q]);
        }
        law_order_unique(a, b, le);
        assert(s == a.push(x) && t == b.push(y));
    }
}

/// A number that adds up over the parts of a sequence does not depend on the order of its values.
pub proof fn lemma_sum_permuted<T>(f: spec_fn(Seq<T>) -> nat, s: Seq<T>, t: Seq<T>)
    requires
        forall|a: Seq<T>, b: Seq<T>| #[trigger] f(a + b) == f(a) + f(b),
        s.to_multiset() == t.to_multiset(),
    ensures
        f(s) == f(t),
    decreases s.len(),
{
    broadcast use vstd::seq_lib::group_to_multiset_ensures;

    assert(s.len() == s.to_multiset().len() && t.len() == t.to_multiset().len());
    if s.len() == 0 {
        assert(s == t);
    } else {
        let x = s.last();
        assert(s[s.len() - 1] == x);
        assert(s.contains(x));
        assert(s.to_multiset().contains(x));
        assert(t.contains(x));
        let j = choose|j: int| 0 <= j < t.len() && t[j] == x;
        let (front, back) = (t.take(j), t.skip(j + 1));
        let (a, b) = (s.drop_last(), t.remove(j));
        assert(a == s.remove(s.len() - 1));
        lemma_sum_permuted(f, a, b);
        assert(b == front + back);
        assert(s == a + seq![x]);
        assert(t == front + (seq![x] + back));
        assert(f(a + seq![x]) == f(a) + f(seq![x]));
        assert(f(front + (seq![x] + back)) == f(front) + f(seq![x] + back));
        assert(f(seq![x] + back) == f(seq![x]) + f(back));
        assert(f(front + back) == f(front) + f(back));
    }
}

/// Two sequences without repetition that have the same values differ in their order only.
pub proof fn lemma_same_values<T>(s: Seq<T>, t: Seq<T>)
    requires
        s.no_duplicates(),
        t.no_duplicates(),
        forall|x: T| #[trigger] s.contains(x) <==> t.contains(x),
    ensures
        s.to_multiset() == t.to_multiset(),
        s.len() == t.len(),
{
    broadcast use vstd::seq_lib::group_to_multiset_ensures;

    s.lemma_multiset_has_no_duplicates();
    t.lemma_multiset_has_no_duplicates();
    assert forall|x: T| #[trigger] s.to_multiset().count(x) == t.to_multiset().count(x) by {
        assert(s.contains(x) <==> s.to_multiset().count(x) > 0);
        assert(t.contains(x) <==> t.to_multiset().count(x) > 0);
        if s.contains(x) {
            assert(s.to_multiset().contains(x) && t.to_multiset().contains(x));
        }
    }
    assert(s.to_multiset() =~= t.to_multiset());
    assert(s.len() == s.to_multiset().len() && t.len() == t.to_multiset().len());
}

// ---------------------------------------------------------------------------
// Sorting
// ---------------------------------------------------------------------------

/// Merges two lists; of two values at the same place that of `b` comes later.
fn merge<T: Ranked>(a: Vec<T>, b: Vec<T>) -> (r: Vec<T>)
    ensures
        r@ == merged(a@, b@, rank()),
{
    let ghost le = rank::<T>();
    let ghost whole = merged(a@, b@, le);
    let mut a = a;
    let mut b = b;
    let mut back: Vec<T> = Vec::new();
    assert(whole == merged(a@, b@, le) + back@.reverse());
    while a.len() > 0 || b.len() > 0
        invariant
            le == rank::<T>(),
            whole == merged(a@, b@, le) + back@.reverse(),
        decreases a@.len() + b@.len(),
    {
        let ghost a0 = a@;
        let ghost b0 = b@;
        let ghost back0 = back@;
        let from_b = if a.len() == 0 {
            true
        } else if b.len() == 0 {
            false
        } else {
            a[a.len() - 1].is_le(&b[b.len() - 1])
        };
        proof {
            lemma_merged_last(a0, b0, le);
        }
        if from_b {
            if let Some(x) = b.pop() {
                back.push(x);
                assert(merged(a0, b0, le) == merged(a@, b@, le).push(x));
                assert(back@.reverse() == seq![x] + back0.reverse());
            }
        } else {
            if let Some(x) = a.pop() {
                back.push(x);
                assert(merged(a0, b0, le) == merged(a@, b@, le).push(x));
                assert(back@.reverse() == seq![x] + back0.reverse());
            }
        }
        assert(whole == merged(a@, b@, le) + back@.reverse());
    }
    let mut r: Vec<T> = Vec::new();
    assert(whole == r@ + back@.reverse());
    while back.len() > 0
        invariant
            whole == r@ + back@.reverse(),
        decreases back@.len(),
    {
        let ghost back0 = back@;
        if let Some(x) = back.pop() {
            assert(back0.reverse() == seq![x] + back@.reverse());
            r.push(x);
        }
    }
    r
}

/// Sorts a list. Values at the same place keep their order.
pub fn sort<T: Ranked>(v: Vec<T>) -> (r: Vec<T>)
    ensures
        r@ == sorted(v@, rank()),
    decreases v@.len(),
{
    let ghost le = rank::<T>();
    if v.len() <= 1 {
        proof {
            if v@.len() == 1 {
                assert(v@.drop_last() == Seq::<T>::empty());
                assert(sorted(v@.drop_last(), le) == Seq::<T>::empty());
                assert(inserted(Seq::<T>::empty(), v@[0], le) == v@);
            }
        }
        return v;
    }
    let ghost all = v@;
    let mut front = v;
    let half = front.len() / 2;
    let back = front.split_off(half);
    proof {
        assert(front@ + back@ == all);
        lemma_rank::<T>();
        lemma_sorted_concat(front@, back@, le);
    }
    merge(sort(front), sort(back))
}

// ---------------------------------------------------------------------------
// Text
// ---------------------------------------------------------------------------

/// `a` stands before `b` in the order of a dictionary, or they are the same. UTF-8 keeps the order
/// of the characters, so this is the order of `str` as well.
pub open spec fn text_le(a: Seq<char>, b: Seq<char>) -> bool
    decreases a.len(),
{
    if a.len() == 0 {
        true
    } else if b.len() == 0 {
        false
    } else if a[0] == b[0] {
        text_le(a.drop_first(), b.drop_first())
    } else {
        a[0] < b[0]
    }
}

/// The order of texts.
pub open spec fn text_order() -> spec_fn(Seq<char>, Seq<char>) -> bool {
    |a: Seq<char>, b: Seq<char>| text_le(a, b)
}

/// Of two texts one stands before the other.
pub proof fn lemma_text_total(a: Seq<char>, b: Seq<char>)
    ensures
        text_le(a, b) || text_le(b, a),
    decreases a.len(),
{
    if a.len() > 0 && b.len() > 0 && a[0] == b[0] {
        lemma_text_total(a.drop_first(), b.drop_first());
    }
}

/// The order of texts carries over.
pub proof fn lemma_text_transitive(a: Seq<char>, b: Seq<char>, c: Seq<char>)
    requires
        text_le(a, b),
        text_le(b, c),
    ensures
        text_le(a, c),
    decreases a.len(),
{
    if a.len() > 0 && b.len() > 0 && c.len() > 0 {
        if a[0] == b[0] && b[0] == c[0] {
            lemma_text_transitive(a.drop_first(), b.drop_first(), c.drop_first());
        }
    }
}

/// Different texts do not stand at the same place.
pub proof fn lemma_text_antisymmetric(a: Seq<char>, b: Seq<char>)
    requires
        text_le(a, b),
        text_le(b, a),
    ensures
        a == b,
    decreases a.len(),
{
    if a.len() > 0 && b.len() > 0 {
        lemma_text_antisymmetric(a.drop_first(), b.drop_first());
        assert(a == seq![a[0]] + a.drop_first());
        assert(b == seq![b[0]] + b.drop_first());
    } else {
        assert(a == b);
    }
}

/// The order of texts is a proper order.
pub proof fn lemma_text_order()
    ensures
        preorder(text_order()),
{
    let le = text_order();
    assert forall|a: Seq<char>, b: Seq<char>| #[trigger] le(a, b) || le(b, a) by {
        lemma_text_total(a, b);
    }
    assert forall|a: Seq<char>, b: Seq<char>, c: Seq<char>| #[trigger]
        le(a, b) && #[trigger] le(b, c) implies le(a, c) by {
        lemma_text_transitive(a, b, c);
    }
}

/// Sorting the same texts gives the same list, whatever their order was.
pub proof fn law_sorted_texts_unique(s: Seq<Seq<char>>, t: Seq<Seq<char>>)
    requires
        s.to_multiset() == t.to_multiset(),
    ensures
        sorted(s, text_order()) == sorted(t, text_order()),
{
    let le = text_order();
    lemma_text_order();
    law_sorted_in_order(s, le);
    law_sorted_in_order(t, le);
    law_sorted_keeps_values(s, le);
    law_sorted_keeps_values(t, le);
    let (a, b) = (sorted(s, le), sorted(t, le));
    assert forall|i: int, j: int|
        0 <= i < a.len() && 0 <= j < a.len() && le(#[trigger] a[i], #[trigger] a[j]) && le(
            a[j],
            a[i],
        ) implies a[i] == a[j] by {
        lemma_text_antisymmetric(a[i], a[j]);
    }
    law_order_unique(a, b, le);
}

/// `a` stands before `b` in the order of a dictionary, or they are the same.
pub fn is_text_le(a: &str, b: &str) -> (r: bool)
    ensures
        r == text_le(a@, b@),
{
    let x = chars_of(a);
    let y = chars_of(b);
    let mut i: usize = 0;
    assert(x@.skip(0) == x@);
    assert(y@.skip(0) == y@);
    while i < x.len()
        invariant
            x@ == a@,
            y@ == b@,
            i <= x@.len(),
            i <= y@.len(),
            text_le(a@, b@) == text_le(x@.skip(i as int), y@.skip(i as int)),
        decreases x@.len() - i,
    {
        if i == y.len() {
            return false;
        }
        if x[i] != y[i] {
            return x[i] < y[i];
        }
        assert(x@.skip(i as int).drop_first() == x@.skip(i + 1));
        assert(y@.skip(i as int).drop_first() == y@.skip(i + 1));
        i += 1;
    }
    true
}

impl Ranked for String {
    open spec fn le(self, other: String) -> bool {
        text_le(self@, other@)
    }

    proof fn le_total(a: String, b: String) {
        lemma_text_total(a@, b@);
    }

    proof fn le_transitive(a: String, b: String, c: String) {
        lemma_text_transitive(a@, b@, c@);
    }

    fn is_le(&self, other: &String) -> (r: bool) {
        is_text_le(self.as_str(), other.as_str())
    }
}

/// A text stands before whatever it begins, and of two texts that differ, what stands first is told
/// by the first character in which they do.
pub proof fn law_first_difference_decides(
    start: Seq<char>,
    x: char,
    a: Seq<char>,
    y: char,
    b: Seq<char>,
)
    requires
        x < y,
    ensures
        text_le(start, start + b),
        text_le(start.push(x) + a, start.push(y) + b),
        !text_le(start.push(y) + b, start.push(x) + a),
        b.len() > 0 ==> !text_le(start + b, start),
    decreases start.len(),
{
    let (s, t) = (start.push(x) + a, start.push(y) + b);
    assert(s[0] == if start.len() == 0 {
        x
    } else {
        start[0]
    });
    assert(t[0] == if start.len() == 0 {
        y
    } else {
        start[0]
    });
    if start.len() > 0 {
        let rest = start.drop_first();
        law_first_difference_decides(rest, x, a, y, b);
        assert(s.drop_first() == rest.push(x) + a);
        assert(t.drop_first() == rest.push(y) + b);
        assert((start + b)[0] == start[0]);
        assert((start + b).drop_first() == rest + b);
    }
}

} // verus!
