//! Vulnerability scanners: addresses most of whose requests are refused.

use crate::detection::{session_for, DetectionType, Monitor, Watched};
use crate::histogram::{columns, law_columns_complete, occurrences, occurrences_below, tally};
use crate::ingress::{
    client_error, is_known_crawler, known_crawler, status_code, RequestText,
};
use crate::order::{lemma_sorted_map, rank, sort, sorted};
use crate::ratio::{
    law_ratios_ranked, ratio_order, ratio_views, Ratio, VisitorRatio, VisitorRatioStat,
};
use crate::text::{contains, has_text, lowercase};
use vstd::prelude::*;

verus! {

/// The counters of one address.
#[derive(Clone, Copy, Debug, PartialEq, Eq, Structural)]
pub struct LiveSession {
    pub total_requests: u64,
    pub bad_status_count: u64,
    pub is_detected: bool,
    pub detection_type: Option<DetectionType>,
}

/// The path, in lower case, is that of a build artefact, which rolling updates can make go missing
/// for ordinary visitors.
pub open spec fn build_artefact(url: Seq<char>) -> bool {
    has_text(url, "/_app/immutable/"@) || has_text(url, "/public/build/"@)
}

/// The path, in lower case, is that of a build artefact.
pub fn is_build_artefact(url: &str) -> (r: bool)
    ensures
        r == build_artefact(url@),
{
    contains(url, "/_app/immutable/") || contains(url, "/public/build/")
}

impl LiveSession {
    /// The counters with one more request.
    pub open spec fn counting(self, bad: bool) -> LiveSession {
        LiveSession {
            total_requests: (self.total_requests + 1) as u64,
            bad_status_count: if bad {
                (self.bad_status_count + 1) as u64
            } else {
                self.bad_status_count
            },
            ..self
        }
    }

    /// The share of refused requests.
    pub open spec fn share(self) -> Ratio {
        Ratio { num: self.bad_status_count, den: self.total_requests }
    }

    /// The share of refused requests.
    pub fn bad_status_ratio(&self) -> (r: Ratio)
        ensures
            r == self.share(),
    {
        Ratio { num: self.bad_status_count, den: self.total_requests }
    }

    /// More than four requests in five were refused.
    pub open spec fn scans(self) -> bool {
        5 * self.bad_status_count > 4 * self.total_requests
    }

    /// The address is a scanner, once there are enough requests to tell.
    pub open spec fn verdict(self, agent: Seq<char>) -> Option<DetectionType> {
        if self.total_requests >= 15 && self.scans() && !known_crawler(agent) {
            Some(DetectionType::VulnerabilityScanner)
        } else {
            None
        }
    }
}

impl Watched for LiveSession {
    open spec fn fresh() -> LiveSession {
        LiveSession {
            total_requests: 0,
            bad_status_count: 0,
            is_detected: false,
            detection_type: None,
        }
    }

    /// No more requests were refused than made, and a bot has its kind and at least fifteen
    /// requests.
    open spec fn sound(self) -> bool {
        &&& self.bad_status_count <= self.total_requests
        &&& self.is_detected <==> self.detection_type is Some
        &&& self.is_detected ==> self.total_requests >= 15
    }

    open spec fn requests(self) -> nat {
        self.total_requests as nat
    }

    open spec fn flagged(self) -> bool {
        self.is_detected
    }

    /// Refusals of build artefacts count only for an address that was found before.
    open spec fn after(self, status: int, url: Seq<char>, agent: Seq<char>) -> LiveSession {
        if self.is_detected {
            self.counting(client_error(status))
        } else {
            let c = self.counting(client_error(status) && !build_artefact(url));
            let v = c.verdict(agent);
            LiveSession { is_detected: v is Some, detection_type: v, ..c }
        }
    }

    proof fn fresh_is_sound() {
    }

    proof fn after_is_sound(s: LiveSession, status: int, url: Seq<char>, agent: Seq<char>) {
    }

    fn start() -> (r: LiveSession) {
        LiveSession {
            total_requests: 0,
            bad_status_count: 0,
            is_detected: false,
            detection_type: None,
        }
    }

    fn is_flagged(&self) -> (r: bool) {
        self.is_detected
    }

    fn observe(&self, status: i32, url: &str, agent: &str) -> (r: LiveSession) {
        let refused = status == 400 || status == 401 || status == 403 || status == 404;
        let mut r = *self;
        r.total_requests = r.total_requests + 1;
        if self.is_detected {
            if refused {
                r.bad_status_count = r.bad_status_count + 1;
            }
            return r;
        }
        if !is_build_artefact(url) && refused {
            r.bad_status_count = r.bad_status_count + 1;
        }
        if r.total_requests >= 15 && 5 * (r.bad_status_count as u128) > 4 * (
        r.total_requests as u128) && !is_known_crawler(agent) {
            r.is_detected = true;
            r.detection_type = Some(DetectionType::VulnerabilityScanner);
        }
        r
    }
}

// ---------------------------------------------------------------------------
// Report
// ---------------------------------------------------------------------------

/// The shares of refused requests of all addresses, in the order in which the addresses came.
pub open spec fn shares(s: Seq<(Seq<char>, LiveSession)>) -> Seq<VisitorRatio> {
    s.map_values(|e: (Seq<char>, LiveSession)| (e.0, e.1.share()))
}

/// The share of refused requests of every address, the largest first.
pub fn visitor_ratio_stats(m: &Monitor<LiveSession>) -> (r: Vec<VisitorRatioStat>)
    requires
        m.wf(),
    ensures
        ratio_views(r@) == sorted(shares(m.state().sessions), ratio_order()),
{
    let ghost all = m.state().sessions;
    let mut list: Vec<VisitorRatioStat> = Vec::new();
    let mut i: usize = 0;
    while i < m.len()
        invariant
            m.wf(),
            all == m.state().sessions,
            i <= all.len(),
            ratio_views(list@) == shares(all).take(i as int),
        decreases all.len() - i,
    {
        let ghost list0 = list@;
        list.push(
            VisitorRatioStat { ip: m.address(i).clone(), ratio: m.session(i).bad_status_ratio() },
        );
        assert(ratio_views(list@) == ratio_views(list0).push(list@[i as int]@));
        assert(shares(all).take(i + 1) == shares(all).take(i as int).push(shares(all)[i as int]));
        i += 1;
    }
    assert(shares(all).take(i as int) == shares(all));
    let ghost unsorted = list@;
    let r = sort(list);
    proof {
        lemma_sorted_map(
            unsorted,
            rank::<VisitorRatioStat>(),
            |x: VisitorRatioStat| x@,
            ratio_order(),
        );
    }
    r
}

/// The column, of twenty of five per cent each, in which a share stands; a whole stands in the
/// last.
pub open spec fn share_column(ratio: Ratio) -> int {
    if ratio.zero() {
        0
    } else if ratio.num >= ratio.den {
        19
    } else {
        (ratio.num as int * 20) / (ratio.den as int)
    }
}

/// The columns in which the shares of a list stand.
pub open spec fn share_columns(s: Seq<VisitorRatio>) -> Seq<int> {
    s.map_values(|x: VisitorRatio| share_column(x.1))
}

proof fn lemma_share_column(ratio: Ratio)
    ensures
        0 <= share_column(ratio) < 20,
{
    if !ratio.zero() && ratio.num < ratio.den {
        let (n, d) = (ratio.num as int, ratio.den as int);
        let q = (n * 20) / d;
        assert(0 <= q && q < 20) by (nonlinear_arith)
            requires
                q == (n * 20) / d,
                0 <= n < d,
        ;
    }
}

/// The column in which a share stands.
fn column_of(ratio: &Ratio) -> (r: usize)
    ensures
        r == share_column(*ratio),
{
    proof {
        lemma_share_column(*ratio);
    }
    if ratio.is_zero() {
        return 0;
    }
    if ratio.num >= ratio.den {
        return 19;
    }
    ((ratio.num as u128 * 20) / (ratio.den as u128)) as usize
}

/// The histogram of the shares in twenty columns of five per cent each.
pub fn bad_status_bins(stats: &Vec<VisitorRatioStat>) -> (r: Vec<usize>)
    ensures
        r@.len() == 20,
        forall|b: int|
            0 <= b < 20 ==> #[trigger] r@[b] == occurrences(share_columns(ratio_views(stats@)), b),
{
    let ghost all = share_columns(ratio_views(stats@));
    let mut places: Vec<usize> = Vec::new();
    let mut i: usize = 0;
    while i < stats.len()
        invariant
            i <= stats@.len(),
            all == share_columns(ratio_views(stats@)),
            columns(places@) == all.take(i as int),
        decreases stats@.len() - i,
    {
        let ghost places0 = places@;
        places.push(column_of(&stats[i].ratio));
        assert(columns(places@) == columns(places0).push(all[i as int]));
        assert(all.take(i + 1) == all.take(i as int).push(all[i as int]));
        i += 1;
    }
    assert(all.take(i as int) == all);
    tally(&places, 20)
}

// ---------------------------------------------------------------------------
// Laws
// ---------------------------------------------------------------------------

/// No address is found to be a scanner before its fifteenth request, nor on a request of a known
/// crawler, nor while a fifth or more of its requests are granted.
pub proof fn law_no_hasty_verdict(s: LiveSession, status: int, url: Seq<char>, agent: Seq<char>)
    requires
        s.sound(),
        s.total_requests < u64::MAX,
        !s.is_detected,
        s.after(status, url, agent).is_detected,
    ensures
        s.total_requests + 1 >= 15,
        !known_crawler(agent),
        s.after(status, url, agent).scans(),
{
}

/// The refusal of a build artefact is not held against an address that was not found yet.
pub proof fn law_build_artefacts_forgiven(
    s: LiveSession,
    status: int,
    url: Seq<char>,
    agent: Seq<char>,
)
    requires
        !s.is_detected,
        build_artefact(url),
    ensures
        s.after(status, url, agent).bad_status_count == s.bad_status_count,
{
}

/// Every share stands in one of the twenty columns, so the columns add up to the number of
/// addresses.
pub proof fn law_histogram_complete(s: Seq<VisitorRatio>)
    ensures
        occurrences_below(share_columns(s), 20) == s.len(),
{
    assert forall|i: int| 0 <= i < share_columns(s).len() implies 0 <= #[trigger] share_columns(
        s,
    )[i] < 20 by {
        lemma_share_column(s[i].1);
    }
    law_columns_complete(share_columns(s), 20);
}

/// A request of an address that was not found yet is counted, and as refused exactly when it is
/// answered 400, 401, 403 or 404 and is not for a build artefact. By it the address is found to be
/// a scanner exactly when, that request among them, it made at least fifteen requests, more than
/// four in five of them were refused, and the user agent is no known crawler.
pub proof fn law_scanner_found(s: LiveSession, status: int, url: Seq<char>, agent: Seq<char>)
    requires
        s.sound(),
        s.total_requests < u64::MAX,
        !s.is_detected,
    ensures
        ({
            let r = s.after(status, url, agent);
            let refused = (status == 400 || status == 401 || status == 403 || status == 404)
                && !has_text(url, "/_app/immutable/"@) && !has_text(url, "/public/build/"@);
            let bad = s.bad_status_count + if refused {
                1int
            } else {
                0int
            };
            let total = s.total_requests + 1;
            &&& r.total_requests == total
            &&& r.bad_status_count == bad
            &&& r.is_detected <==> total >= 15 && 5 * bad > 4 * total && !known_crawler(agent)
            &&& r.detection_type == if r.is_detected {
                Some(DetectionType::VulnerabilityScanner)
            } else {
                None
            }
        }),
{
}

/// An address that was found stays found and is counted on, now with refusals of build artefacts.
pub proof fn law_scanner_counted_on(s: LiveSession, status: int, url: Seq<char>, agent: Seq<char>)
    requires
        s.sound(),
        s.total_requests < u64::MAX,
        s.is_detected,
    ensures
        s.after(status, url, agent).total_requests == s.total_requests + 1,
        s.after(status, url, agent).bad_status_count == s.bad_status_count + if status == 400
            || status == 401 || status == 403 || status == 404 {
            1int
        } else {
            0int
        },
        s.after(status, url, agent).is_detected,
        s.after(status, url, agent).detection_type == s.detection_type,
{
}

/// An address a fifth or more of whose requests are granted is not found by them, and one that is
/// never refused is not found at all.
pub proof fn law_ordinary_visitor_spared(
    s: LiveSession,
    status: int,
    url: Seq<char>,
    agent: Seq<char>,
)
    requires
        s.sound(),
        s.total_requests < u64::MAX,
        !s.is_detected,
        s.after(status, url, agent).is_detected,
    ensures
        5 * (s.after(status, url, agent).total_requests - s.after(
            status,
            url,
            agent,
        ).bad_status_count) < s.after(status, url, agent).total_requests,
        s.after(status, url, agent).bad_status_count >= 13,
{
}

/// The request was refused, and not for want of a build artefact.
pub open spec fn held_against(q: RequestText) -> bool {
    &&& client_error(status_code(q.status))
    &&& !has_text(lowercase(q.url), "/_app/immutable/"@)
    &&& !has_text(lowercase(q.url), "/public/build/"@)
}

/// The first `k` requests of an address are those of a scanner: at least fifteen, more than four in
/// five refused, the last not that of a known crawler.
pub open spec fn scanner_by(requests: Seq<RequestText>, k: int) -> bool {
    &&& 15 <= k <= requests.len()
    &&& 5 * requests.take(k).filter(|q: RequestText| held_against(q)).len() > 4 * k
    &&& !known_crawler(lowercase(requests[k - 1].user_agent))
}

/// An address is a scanner exactly when its requests were those of one at some point. Until then as
/// many are held against it as were refused, build artefacts aside.
pub proof fn law_scanners_told_by_requests(requests: Seq<RequestText>)
    requires
        requests.len() <= u64::MAX,
    ensures
        session_for::<LiveSession>(requests).sound(),
        session_for::<LiveSession>(requests).total_requests == requests.len(),
        session_for::<LiveSession>(requests).is_detected <==> exists|k: int| #[trigger]
            scanner_by(requests, k),
        !session_for::<LiveSession>(requests).is_detected ==> session_for::<LiveSession>(
            requests,
        ).bad_status_count == requests.filter(|q: RequestText| held_against(q)).len(),
    decreases requests.len(),
{
    reveal(Seq::filter);
    let n = requests.len() as int;
    if n > 0 {
        let rest = requests.drop_last();
        law_scanners_told_by_requests(rest);
        assert forall|k: int| k <= rest.len() implies scanner_by(rest, k) == #[trigger] scanner_by(
            requests,
            k,
        ) by {
            if 15 <= k {
                assert(rest.take(k) == requests.take(k));
                assert(rest[k - 1] == requests[k - 1]);
            }
        }
        assert(requests.take(n) == requests);
        if session_for::<LiveSession>(rest).is_detected {
            let k = choose|k: int| #[trigger] scanner_by(rest, k);
            assert(scanner_by(requests, k));
        } else {
            if exists|k: int| #[trigger] scanner_by(requests, k) {
                let k = choose|k: int| #[trigger] scanner_by(requests, k);
                if k < n {
                    assert(scanner_by(rest, k));
                }
            }
            assert(scanner_by(requests, n) == session_for::<LiveSession>(requests).is_detected);
        }
    }
}

/// A share stands in the column of five per cent that holds it: at or above the column's start, and
/// below its end. Nothing stands in the first, and a whole in the last.
pub proof fn law_share_in_column(ratio: Ratio)
    ensures
        0 <= share_column(ratio) < 20,
        ratio.num == 0 || ratio.den == 0 ==> share_column(ratio) == 0,
        0 < ratio.den <= ratio.num ==> share_column(ratio) == 19,
        ratio.num < ratio.den ==> share_column(ratio) * 5 * ratio.den <= 100 * ratio.num < (
        share_column(ratio) + 1) * 5 * ratio.den,
{
    lemma_share_column(ratio);
    if ratio.num < ratio.den {
        let (n, d) = (ratio.num as int, ratio.den as int);
        let c = share_column(ratio);
        if ratio.num > 0 {
            assert(c * d <= n * 20 < (c + 1) * d) by (nonlinear_arith)
                requires
                    c == (n * 20) / d,
                    d > 0,
            ;
        } else {
            assert(c * d == 0 && (c + 1) * d == d) by (nonlinear_arith)
                requires
                    c == 0,
            ;
        }
        assert(c * 5 * d == 5 * (c * d) && (c + 1) * 5 * d == 5 * ((c + 1) * d)) by (
        nonlinear_arith);
    }
}

/// The list of shares has each address once, with its refused requests to all its requests, and no
/// address ahead of one with a larger share.
pub proof fn law_shares_listed(s: Seq<(Seq<char>, LiveSession)>, i: int, j: int)
    requires
        0 <= i < j < s.len(),
    ensures
        ({
            let list = sorted(shares(s), ratio_order());
            &&& list.len() == s.len()
            &&& list.to_multiset() == shares(s).to_multiset()
            &&& shares(s)[i] == (
                s[i].0,
                Ratio { num: s[i].1.bad_status_count, den: s[i].1.total_requests },
            )
            &&& list[i].1.den > 0 && list[j].1.den > 0 ==> list[i].1.num * list[j].1.den
                >= list[j].1.num * list[i].1.den
        }),
{
    law_ratios_ranked(shares(s), i, j);
}

} // verus!
