//! Shares and odds, held exactly as the two counts that they are made of.

use crate::order::{
    law_sorted_in_order, law_sorted_keeps_values, preorder, sorted, Ranked,
};
use vstd::prelude::*;

verus! {

/// `num` to `den`. A ratio to nothing counts as 0.
#[derive(Clone, Copy, Debug, PartialEq, Eq, Structural)]
pub struct Ratio {
    pub num: u64,
    pub den: u64,
}

impl Ratio {
    /// The ratio is 0.
    pub open spec fn zero(self) -> bool {
        self.num == 0 || self.den == 0
    }

    /// The ratio is less than `n` to `d`, which counts as 0 where `d` is.
    pub open spec fn below(self, n: nat, d: nat) -> bool {
        n > 0 && d > 0 && (self.zero() || self.num * d < n * self.den)
    }

    /// The two ratios, neither to nothing, are the same fraction.
    pub open spec fn same_fraction(self, other: Ratio) -> bool {
        self.num * other.den == other.num * self.den
    }

    /// The ratio is at least `other`.
    pub open spec fn ge(self, other: Ratio) -> bool {
        other.zero() || (!self.zero() && self.num * other.den >= other.num * self.den)
    }

    /// The ratio is 0.
    pub fn is_zero(&self) -> (r: bool)
        ensures
            r == self.zero(),
    {
        self.num == 0 || self.den == 0
    }

    /// The ratio is less than `n` to `d`, which counts as 0 where `d` is.
    pub fn is_below(&self, n: u32, d: u32) -> (r: bool)
        ensures
            r == self.below(n as nat, d as nat),
    {
        if n == 0 || d == 0 {
            return false;
        }
        if self.is_zero() {
            return true;
        }
        proof {
            assert(self.num * d <= u64::MAX * u32::MAX) by (nonlinear_arith)
                requires
                    self.num <= u64::MAX,
                    d <= u32::MAX,
            ;
            assert(n * self.den <= u64::MAX * u32::MAX) by (nonlinear_arith)
                requires
                    self.den <= u64::MAX,
                    n <= u32::MAX,
            ;
        }
        (self.num as u128) * (d as u128) < (n as u128) * (self.den as u128)
    }

    /// The ratio is at least `other`.
    pub fn is_ge(&self, other: &Ratio) -> (r: bool)
        ensures
            r == self.ge(*other),
    {
        if other.is_zero() {
            return true;
        }
        if self.is_zero() {
            return false;
        }
        proof {
            assert(self.num * other.den <= u64::MAX * u64::MAX) by (nonlinear_arith)
                requires
                    self.num <= u64::MAX,
                    other.den <= u64::MAX,
            ;
            assert(other.num * self.den <= u64::MAX * u64::MAX) by (nonlinear_arith)
                requires
                    other.num <= u64::MAX,
                    self.den <= u64::MAX,
            ;
        }
        (self.num as u128) * (other.den as u128) >= (other.num as u128) * (self.den as u128)
    }
}

/// Of two ratios one is at least the other.
pub proof fn law_ratio_total(a: Ratio, b: Ratio)
    ensures
        a.ge(b) || b.ge(a),
{
}

/// A ratio is less than another exactly when it is not at least the other.
pub proof fn law_below_is_not_ge(a: Ratio, b: Ratio)
    ensures
        a.below(b.num as nat, b.den as nat) <==> !a.ge(b),
{
}

/// The order of ratios carries over.
pub proof fn law_ratio_transitive(a: Ratio, b: Ratio, c: Ratio)
    requires
        a.ge(b),
        b.ge(c),
    ensures
        a.ge(c),
{
    if !c.zero() {
        let (an, ad, bn, bd, cn, cd) = (
            a.num as int,
            a.den as int,
            b.num as int,
            b.den as int,
            c.num as int,
            c.den as int,
        );
        assert(an * cd >= cn * ad) by (nonlinear_arith)
            requires
                an * bd >= bn * ad,
                bn * cd >= cn * bd,
                bd > 0,
                ad > 0,
                cd > 0,
        {
            assert(an * bd * cd >= bn * ad * cd);
            assert(bn * cd * ad >= cn * bd * ad);
            assert(bn * ad * cd == bn * cd * ad);
            assert(an * cd * bd >= cn * ad * bd);
        }
    }
}

/// The ratio of one address.
pub struct VisitorRatioStat {
    pub ip: String,
    pub ratio: Ratio,
}

/// The address and ratio of one address.
pub type VisitorRatio = (Seq<char>, Ratio);

impl View for VisitorRatioStat {
    type V = VisitorRatio;

    open spec fn view(&self) -> VisitorRatio {
        (self.ip@, self.ratio)
    }
}

/// Larger ratios come first.
pub open spec fn ratio_order() -> spec_fn(VisitorRatio, VisitorRatio) -> bool {
    |a: VisitorRatio, b: VisitorRatio| a.1.ge(b.1)
}

/// What a list of ratios says.
pub open spec fn ratio_views(s: Seq<VisitorRatioStat>) -> Seq<VisitorRatio> {
    s.map_values(|x: VisitorRatioStat| x@)
}

impl Ranked for VisitorRatioStat {
    open spec fn le(self, other: VisitorRatioStat) -> bool {
        self.ratio.ge(other.ratio)
    }

    proof fn le_total(a: VisitorRatioStat, b: VisitorRatioStat) {
        law_ratio_total(a.ratio, b.ratio);
    }

    proof fn le_transitive(a: VisitorRatioStat, b: VisitorRatioStat, c: VisitorRatioStat) {
        law_ratio_transitive(a.ratio, b.ratio, c.ratio);
    }

    fn is_le(&self, other: &VisitorRatioStat) -> (r: bool) {
        self.ratio.is_ge(&other.ratio)
    }
}

/// Ratios are compared as fractions: crosswise, where neither is to nothing; one to nothing, or of
/// nothing, is less than any other.
pub proof fn law_compared_as_fractions(a: Ratio, b: Ratio, n: nat, d: nat)
    requires
        a.den > 0,
        b.den > 0,
        d > 0,
    ensures
        a.ge(b) <==> a.num * b.den >= b.num * a.den,
        a.below(n, d) <==> a.num * d < n * a.den,
        (Ratio { num: a.num, den: 0 }).ge(b) <==> b.num == 0,
        a.ge(Ratio { num: b.num, den: 0 }),
        (Ratio { num: a.num, den: 0 }).below(n, d) <==> n > 0,
{
    let (an, ad, bn, bd) = (a.num as int, a.den as int, b.num as int, b.den as int);
    assert(bn == 0 ==> an * bd >= bn * ad) by (nonlinear_arith)
        requires
            an >= 0,
            bd > 0,
    ;
    assert(an == 0 && bn > 0 ==> an * bd < bn * ad) by (nonlinear_arith)
        requires
            ad > 0,
    ;
    assert(an == 0 ==> an * d == 0) by (nonlinear_arith);
    assert(n == 0 ==> n * ad == 0) by (nonlinear_arith);
    assert(an * d >= 0) by (nonlinear_arith)
        requires
            an >= 0,
    ;
    assert(n > 0 ==> n * ad > 0) by (nonlinear_arith)
        requires
            ad > 0,
    ;
}

/// Sorting ratios keeps each of them once and puts none ahead of a larger one.
pub proof fn law_ratios_ranked(s: Seq<VisitorRatio>, i: int, j: int)
    requires
        0 <= i < j < s.len(),
    ensures
        sorted(s, ratio_order()).len() == s.len(),
        sorted(s, ratio_order()).to_multiset() == s.to_multiset(),
        ({
            let (a, b) = (sorted(s, ratio_order())[i].1, sorted(s, ratio_order())[j].1);
            a.den > 0 && b.den > 0 ==> a.num * b.den >= b.num * a.den
        }),
{
    let le = ratio_order();
    assert(preorder(le)) by {
        assert forall|a: VisitorRatio, b: VisitorRatio| #[trigger] le(a, b) || le(b, a) by {
            law_ratio_total(a.1, b.1);
        }
        assert forall|a: VisitorRatio, b: VisitorRatio, c: VisitorRatio| #[trigger]
            le(a, b) && #[trigger] le(b, c) implies le(a, c) by {
            law_ratio_transitive(a.1, b.1, c.1);
        }
    }
    law_sorted_in_order(s, le);
    law_sorted_keeps_values(s, le);
    let (a, b) = (sorted(s, le)[i], sorted(s, le)[j]);
    assert(le(a, b));
    if a.1.den > 0 && b.1.den > 0 {
        law_compared_as_fractions(a.1, b.1, 1, 1);
    }
}

} // verus!
