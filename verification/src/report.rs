//! Parts of printed reports: rankings, bars and labels.

use crate::keyed::Counts;
use crate::order::{
    law_sorted_in_order, law_sorted_keeps_values, law_sorted_stable, lemma_sorted_map, preorder,
    rank, sort, sorted, Ranked,
};
use crate::text::{append, copies, lemma_bytes_concat, repeat};
use vstd::prelude::*;
use vstd::utf8::{
    decode_utf8, decode_utf8_encode_utf8, encode_utf8, encode_utf8_decode_utf8,
    encode_utf8_valid_utf8, valid_utf8_split,
};

verus! {

// ---------------------------------------------------------------------------
// Rankings
// ---------------------------------------------------------------------------

/// A line of a ranking.
pub struct Entry {
    pub label: String,
    pub count: u64,
}

impl View for Entry {
    type V = (Seq<char>, nat);

    open spec fn view(&self) -> (Seq<char>, nat) {
        (self.label@, self.count as nat)
    }
}

/// What a ranking says.
pub open spec fn entry_views(s: Seq<Entry>) -> Seq<(Seq<char>, nat)> {
    s.map_values(|e: Entry| e@)
}

/// Larger counts come first.
pub open spec fn count_order() -> spec_fn((Seq<char>, nat), (Seq<char>, nat)) -> bool {
    |a: (Seq<char>, nat), b: (Seq<char>, nat)| a.1 >= b.1
}

impl Ranked for Entry {
    open spec fn le(self, other: Entry) -> bool {
        self.count >= other.count
    }

    proof fn le_total(a: Entry, b: Entry) {
    }

    proof fn le_transitive(a: Entry, b: Entry, c: Entry) {
    }

    fn is_le(&self, other: &Entry) -> (r: bool) {
        self.count >= other.count
    }
}

/// The counts of a table, the largest first; equal counts keep the order of the table.
pub fn ranking(counts: &Counts) -> (r: Vec<Entry>)
    requires
        counts.wf(),
    ensures
        entry_views(r@) == sorted(counts.tally(), count_order()),
{
    let ghost all = counts.tally();
    let mut list: Vec<Entry> = Vec::new();
    let mut i: usize = 0;
    let n = counts.len();
    while i < n
        invariant
            counts.wf(),
            all == counts.tally(),
            n == all.len(),
            i <= n,
            entry_views(list@) == all.take(i as int),
        decreases n - i,
    {
        let ghost list0 = list@;
        list.push(Entry { label: counts.key(i).clone(), count: counts.count(i) });
        assert(entry_views(list@) == entry_views(list0).push(list@.last()@));
        assert(all.take(i + 1) == all.take(i as int).push(all[i as int]));
        i += 1;
    }
    assert(all.take(i as int) == all);
    let ghost unsorted = list@;
    let r = sort(list);
    proof {
        lemma_sorted_map(unsorted, rank::<Entry>(), |e: Entry| e@, count_order());
    }
    r
}

/// The first `n` lines of a ranking.
pub open spec fn top<T>(s: Seq<T>, n: nat) -> Seq<T> {
    if s.len() <= n {
        s
    } else {
        s.take(n as int)
    }
}

/// The first `n` lines of a ranking.
pub fn top_entries(list: Vec<Entry>, n: usize) -> (r: Vec<Entry>)
    ensures
        entry_views(r@) == top(entry_views(list@), n as nat),
{
    let mut r = list;
    if r.len() > n {
        let ghost all = r@;
        r.truncate(n);
        assert(entry_views(r@) == entry_views(all).take(n as int));
    }
    r
}

/// The count of the first line of a ranking, 0 where it has none.
pub open spec fn first_count(s: Seq<(Seq<char>, nat)>) -> nat {
    if s.len() == 0 {
        0
    } else {
        s[0].1
    }
}

/// The count of the first line of a ranking, 0 where it has none.
pub fn leading_count(list: &Vec<Entry>) -> (r: u64)
    ensures
        r == first_count(entry_views(list@)),
{
    if list.len() == 0 {
        0
    } else {
        list[0].count
    }
}

// ---------------------------------------------------------------------------
// Bars and labels
// ---------------------------------------------------------------------------

/// A bar of `fill` blocks, with half a block behind them where `more` is left and there is room.
pub open spec fn bar_of(fill: nat, more: bool, width: nat) -> Seq<char> {
    if more && fill < width {
        copies('█', fill).push('▌')
    } else {
        copies('█', fill)
    }
}

/// A bar of `fill` blocks, with half a block behind them where `more` is left and there is room.
pub fn bar(fill: usize, more: bool, width: usize) -> (r: String)
    ensures
        r@ == bar_of(fill as nat, more, width as nat),
{
    let mut r = repeat('█', fill);
    if more && fill < width {
        r.push('▌');
    }
    r
}

/// The text where it has at most `limit` bytes, else its first `keep` bytes and three dots.
pub open spec fn clipped(s: Seq<char>, limit: nat, keep: nat) -> Seq<char> {
    if encode_utf8(s).len() <= limit {
        s
    } else {
        decode_utf8(encode_utf8(s).subrange(0, keep as int)) + "..."@
    }
}

/// The text can be cut behind `keep` bytes wherever it has more than `limit`.
pub open spec fn can_clip(s: Seq<char>, limit: nat, keep: nat) -> bool {
    encode_utf8(s).len() > limit ==> vstd::utf8::is_char_boundary(encode_utf8(s), keep as int)
}

/// The text can be cut behind `keep` bytes wherever it has more than `limit`.
pub fn is_clippable(s: &str, limit: usize, keep: usize) -> (r: bool)
    ensures
        r == can_clip(s@, limit as nat, keep as nat),
{
    s.as_bytes().len() <= limit || s.is_char_boundary(keep)
}

/// The text where it has at most `limit` bytes, else its first `keep` bytes and three dots.
pub fn clip(s: &str, limit: usize, keep: usize) -> (r: String)
    requires
        can_clip(s@, limit as nat, keep as nat),
    ensures
        r@ == clipped(s@, limit as nat, keep as nat),
{
    if s.as_bytes().len() <= limit {
        return s.to_owned();
    }
    let (head, tail) = s.split_at(keep);
    proof {
        encode_utf8_decode_utf8(head@);
    }
    append(head, "...")
}

// ---------------------------------------------------------------------------
// Laws
// ---------------------------------------------------------------------------

/// What is left out of the first lines of a ranking has no larger count than what is in them, and
/// the first line has the largest count of all.
pub proof fn law_top_is_largest(s: Seq<(Seq<char>, nat)>, n: nat, i: int, j: int)
    requires
        0 <= i < n,
        i < j < s.len(),
    ensures
        sorted(s, count_order()).len() == s.len(),
        top(sorted(s, count_order()), n)[i].1 >= sorted(s, count_order())[j].1,
        first_count(sorted(s, count_order())) >= sorted(s, count_order())[j].1,
{
    let le = count_order();
    assert(preorder(le));
    law_sorted_in_order(s, le);
    law_sorted_keeps_values(s, le);
    s.to_multiset_ensures();
    sorted(s, le).to_multiset_ensures();
    let r = sorted(s, le);
    assert(le(r[i], r[j]));
    assert(le(r[0], r[j]));
}

/// A bar is never longer than the room for it, where the blocks are not.
pub proof fn law_bar_fits(fill: nat, more: bool, width: nat)
    requires
        fill <= width,
    ensures
        bar_of(fill, more, width).len() <= width,
{
}

/// A ranking has every line of the table once, none ahead of one with a larger count, and lines with
/// the same count in the order of the table.
pub proof fn law_ranking_exact(s: Seq<(Seq<char>, nat)>, count: nat, i: int, j: int)
    requires
        0 <= i < j < s.len(),
    ensures
        sorted(s, count_order()).to_multiset() == s.to_multiset(),
        sorted(s, count_order()).len() == s.len(),
        sorted(s, count_order())[i].1 >= sorted(s, count_order())[j].1,
        sorted(s, count_order()).filter(|e: (Seq<char>, nat)| e.1 == count) == s.filter(
            |e: (Seq<char>, nat)| e.1 == count,
        ),
{
    let le = count_order();
    assert(preorder(le));
    law_sorted_in_order(s, le);
    law_sorted_keeps_values(s, le);
    law_sorted_stable(s, le, |e: (Seq<char>, nat)| e.1 == count);
    assert(le(sorted(s, le)[i], sorted(s, le)[j]));
}

/// The first lines of a ranking are as many as asked for, or all there are, and stand as they do in
/// the ranking.
pub proof fn law_first_lines<T>(s: Seq<T>, n: nat, i: int)
    ensures
        top(s, n).len() == if s.len() < n {
            s.len()
        } else {
            n
        },
        0 <= i < top(s, n).len() ==> top(s, n)[i] == s[i],
{
}

/// A bar has as many blocks as it is filled with, and half a block more exactly when more is left
/// and there is room for it.
pub proof fn law_blocks_of_bar(fill: nat, more: bool, width: nat, i: int)
    ensures
        bar_of(fill, more, width).len() == fill + if more && width > fill {
            1int
        } else {
            0int
        },
        0 <= i < fill ==> bar_of(fill, more, width)[i] == '█',
        bar_of(fill, more, width).len() > fill ==> bar_of(fill, more, width).last() == '▌',
{
}

/// A label of at most `limit` bytes stays as it is; of a longer one the first `keep` bytes are left,
/// with three dots behind them.
pub proof fn law_label_cut(s: Seq<char>, limit: nat, keep: nat)
    requires
        can_clip(s, limit, keep),
        keep <= encode_utf8(s).len(),
    ensures
        encode_utf8(s).len() <= limit ==> clipped(s, limit, keep) == s,
        encode_utf8(s).len() > limit ==> encode_utf8(clipped(s, limit, keep)) == encode_utf8(
            s,
        ).subrange(0, keep as int) + encode_utf8("..."@),
{
    if encode_utf8(s).len() > limit {
        let head = encode_utf8(s).subrange(0, keep as int);
        encode_utf8_valid_utf8(s);
        valid_utf8_split(encode_utf8(s), keep as int);
        decode_utf8_encode_utf8(head);
        lemma_bytes_concat(decode_utf8(head), "..."@);
    }
}

/// The leading count of a ranking is the largest of all counts, and 0 where there are none.
pub proof fn law_leading_count(s: Seq<(Seq<char>, nat)>, i: int)
    ensures
        s.len() == 0 ==> first_count(sorted(s, count_order())) == 0,
        0 <= i < s.len() ==> first_count(sorted(s, count_order())) >= s[i].1,
        s.len() > 0 ==> exists|k: int|
            0 <= k < s.len() && (#[trigger] s[k]).1 == first_count(sorted(s, count_order())),
{
    broadcast use vstd::seq_lib::group_to_multiset_ensures;

    let le = count_order();
    let r = sorted(s, le);
    assert(preorder(le));
    law_sorted_in_order(s, le);
    law_sorted_keeps_values(s, le);
    if s.len() > 0 {
        assert(r.contains(r[0]));
        assert(r.to_multiset().contains(r[0]));
        assert(s.contains(r[0]));
        let k = choose|k: int| 0 <= k < s.len() && s[k] == r[0];
        assert(s[k].1 == first_count(r));
    }
    if 0 <= i < s.len() {
        assert(s.contains(s[i]));
        assert(s.to_multiset().contains(s[i]));
        assert(r.contains(s[i]));
        let j = choose|j: int| 0 <= j < r.len() && r[j] == s[i];
        if j > 0 {
            assert(le(r[0], r[j]));
        }
    }
}

} // verus!
