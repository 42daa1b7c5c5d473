//! Stealth scrapers: addresses that read pages but next to none of their resources.

use crate::detection::{session_for, DetectionType, Monitor, Watched};
use crate::histogram::{columns, law_columns_complete, occurrences, occurrences_below, tally};
use crate::ingress::{
    is_known_crawler, is_normal_app_api, is_static_resource, known_crawler, normal_app_api,
    static_resource, RequestText,
};
use crate::order::{lemma_sorted_map, rank, sort, sorted};
use crate::ratio::{
    law_ratios_ranked, ratio_order, ratio_views, Ratio, VisitorRatio, VisitorRatioStat,
};
use crate::text::lowercase;
use vstd::prelude::*;

verus! {

/// The counters of one address.
#[derive(Clone, Copy, Debug, PartialEq, Eq, Structural)]
pub struct LiveSession {
    pub total_requests: u64,
    pub dynamic_count: u64,
    pub static_count: u64,
    pub is_detected: bool,
    pub detection_type: Option<DetectionType>,
}

impl LiveSession {
    /// The counters with one more request.
    pub open spec fn counting(self, resource: bool) -> LiveSession {
        LiveSession {
            total_requests: (self.total_requests + 1) as u64,
            dynamic_count: if resource {
                self.dynamic_count
            } else {
                (self.dynamic_count + 1) as u64
            },
            static_count: if resource {
                (self.static_count + 1) as u64
            } else {
                self.static_count
            },
            ..self
        }
    }

    /// The requests for page resources to the others. With no others the odds are taken as 100, or
    /// as 0 where there is no request at all.
    pub open spec fn odds(self) -> Ratio {
        if self.dynamic_count == 0 {
            if self.static_count > 0 {
                Ratio { num: 100, den: 1 }
            } else {
                Ratio { num: 0, den: 1 }
            }
        } else {
            Ratio { num: self.static_count, den: self.dynamic_count }
        }
    }

    /// The requests for page resources to the others.
    pub fn static_odds_ratio(&self) -> (r: Ratio)
        ensures
            r == self.odds(),
    {
        if self.dynamic_count == 0 {
            if self.static_count > 0 {
                Ratio { num: 100, den: 1 }
            } else {
                Ratio { num: 0, den: 1 }
            }
        } else {
            Ratio { num: self.static_count, den: self.dynamic_count }
        }
    }

    /// The address is a scraper, once there are enough requests to tell: its odds are under 0.3
    /// and the last request is not one that the site's own pages make.
    pub open spec fn verdict(self, url: Seq<char>, agent: Seq<char>) -> Option<DetectionType> {
        if self.total_requests >= 15 && self.odds().below(3, 10) && !normal_app_api(url)
            && !known_crawler(agent) {
            Some(DetectionType::StealthScraper)
        } else {
            None
        }
    }
}

impl Watched for LiveSession {
    open spec fn fresh() -> LiveSession {
        LiveSession {
            total_requests: 0,
            dynamic_count: 0,
            static_count: 0,
            is_detected: false,
            detection_type: None,
        }
    }

    /// Every request is either for a resource or not, and a bot has its kind and at least fifteen
    /// requests.
    open spec fn sound(self) -> bool {
        &&& self.static_count + self.dynamic_count == self.total_requests
        &&& self.is_detected <==> self.detection_type is Some
        &&& self.is_detected ==> self.total_requests >= 15
    }

    open spec fn requests(self) -> nat {
        self.total_requests as nat
    }

    open spec fn flagged(self) -> bool {
        self.is_detected
    }

    /// An address that was found is only counted.
    open spec fn after(self, status: int, url: Seq<char>, agent: Seq<char>) -> LiveSession {
        let c = self.counting(static_resource(url));
        if self.is_detected {
            c
        } else {
            let v = c.verdict(url, agent);
            LiveSession { is_detected: v is Some, detection_type: v, ..c }
        }
    }

    proof fn fresh_is_sound() {
    }

    proof fn after_is_sound(s: LiveSession, status: int, url: Seq<char>, agent: Seq<char>) {
    }

    fn start() -> (r: LiveSession) {
        LiveSession {
            total_requests: 0,
            dynamic_count: 0,
            static_count: 0,
            is_detected: false,
            detection_type: None,
        }
    }

    fn is_flagged(&self) -> (r: bool) {
        self.is_detected
    }

    fn observe(&self, status: i32, url: &str, agent: &str) -> (r: LiveSession) {
        let mut r = *self;
        r.total_requests = r.total_requests + 1;
        if is_static_resource(url) {
            r.static_count = r.static_count + 1;
        } else {
            r.dynamic_count = r.dynamic_count + 1;
        }
        if self.is_detected {
            return r;
        }
        if r.total_requests >= 15 && r.static_odds_ratio().is_below(3, 10) && !is_normal_app_api(
            url,
        ) && !is_known_crawler(agent) {
            r.is_detected = true;
            r.detection_type = Some(DetectionType::StealthScraper);
        }
        r
    }
}

// ---------------------------------------------------------------------------
// Report
// ---------------------------------------------------------------------------

/// The odds of all addresses, in the order in which the addresses came.
pub open spec fn all_odds(s: Seq<(Seq<char>, LiveSession)>) -> Seq<VisitorRatio> {
    s.map_values(|e: (Seq<char>, LiveSession)| (e.0, e.1.odds()))
}

/// The odds of every address, the largest first.
pub fn visitor_ratio_stats(m: &Monitor<LiveSession>) -> (r: Vec<VisitorRatioStat>)
    requires
        m.wf(),
    ensures
        ratio_views(r@) == sorted(all_odds(m.state().sessions), ratio_order()),
{
    let ghost all = m.state().sessions;
    let mut list: Vec<VisitorRatioStat> = Vec::new();
    let mut i: usize = 0;
    while i < m.len()
        invariant
            m.wf(),
            all == m.state().sessions,
            i <= all.len(),
            ratio_views(list@) == all_odds(all).take(i as int),
        decreases all.len() - i,
    {
        let ghost list0 = list@;
        list.push(
            VisitorRatioStat { ip: m.address(i).clone(), ratio: m.session(i).static_odds_ratio() },
        );
        assert(ratio_views(list@) == ratio_views(list0).push(list@[i as int]@));
        assert(all_odds(all).take(i + 1) == all_odds(all).take(i as int).push(
            all_odds(all)[i as int],
        ));
        i += 1;
    }
    assert(all_odds(all).take(i as int) == all_odds(all));
    let ghost unsorted = list@;
    let r = sort(list);
    proof {
        lemma_sorted_map(
            unsorted,
            rank::<VisitorRatioStat>(),
            |x: VisitorRatioStat| x@,
            ratio_order(),
        );
    }
    r
}

/// The row of the table of odds: exactly 0, then under 0.05, 0.10, 0.20, 0.50 and 1.00, then the
/// rest.
pub open spec fn odds_row(ratio: Ratio) -> int {
    if ratio.zero() {
        0
    } else if ratio.below(1, 20) {
        1
    } else if ratio.below(1, 10) {
        2
    } else if ratio.below(1, 5) {
        3
    } else if ratio.below(1, 2) {
        4
    } else if ratio.below(1, 1) {
        5
    } else {
        6
    }
}

/// The rows of a list of odds.
pub open spec fn odds_rows(s: Seq<VisitorRatio>) -> Seq<int> {
    s.map_values(|x: VisitorRatio| odds_row(x.1))
}

/// The row of the table of odds.
fn row_of(ratio: &Ratio) -> (r: usize)
    ensures
        r == odds_row(*ratio),
{
    if ratio.is_zero() {
        0
    } else if ratio.is_below(1, 20) {
        1
    } else if ratio.is_below(1, 10) {
        2
    } else if ratio.is_below(1, 5) {
        3
    } else if ratio.is_below(1, 2) {
        4
    } else if ratio.is_below(1, 1) {
        5
    } else {
        6
    }
}

/// How many addresses fall into each of the seven rows of the table of odds.
pub fn static_odds_table(stats: &Vec<VisitorRatioStat>) -> (r: Vec<usize>)
    ensures
        r@.len() == 7,
        forall|b: int|
            0 <= b < 7 ==> #[trigger] r@[b] == occurrences(odds_rows(ratio_views(stats@)), b),
{
    let ghost all = odds_rows(ratio_views(stats@));
    let mut places: Vec<usize> = Vec::new();
    let mut i: usize = 0;
    while i < stats.len()
        invariant
            i <= stats@.len(),
            all == odds_rows(ratio_views(stats@)),
            columns(places@) == all.take(i as int),
        decreases stats@.len() - i,
    {
        let ghost places0 = places@;
        places.push(row_of(&stats[i].ratio));
        assert(columns(places@) == columns(places0).push(all[i as int]));
        assert(all.take(i + 1) == all.take(i as int).push(all[i as int]));
        i += 1;
    }
    assert(all.take(i as int) == all);
    tally(&places, 7)
}

// ---------------------------------------------------------------------------
// Laws
// ---------------------------------------------------------------------------

/// No address is found to be a scraper before its fifteenth request, nor on a request of a known
/// crawler, nor on one that the site's own pages make.
pub proof fn law_no_hasty_verdict(s: LiveSession, status: int, url: Seq<char>, agent: Seq<char>)
    requires
        s.sound(),
        s.total_requests < u64::MAX,
        !s.is_detected,
        s.after(status, url, agent).is_detected,
    ensures
        s.total_requests + 1 >= 15,
        !known_crawler(agent),
        !normal_app_api(url),
{
}

/// The status of a request plays no part.
pub proof fn law_status_ignored(
    s: LiveSession,
    status: int,
    other: int,
    url: Seq<char>,
    agent: Seq<char>,
)
    ensures
        s.after(status, url, agent) == s.after(other, url, agent),
{
}

/// Every address falls into one of the seven rows, so the rows add up to the number of addresses.
pub proof fn law_table_complete(s: Seq<VisitorRatio>)
    ensures
        occurrences_below(odds_rows(s), 7) == s.len(),
{
    law_columns_complete(odds_rows(s), 7);
}

/// Larger odds never stand in an earlier row.
pub proof fn law_rows_ascend(a: Ratio, b: Ratio)
    requires
        a.ge(b),
    ensures
        odds_row(a) >= odds_row(b),
{
    if !b.zero() {
        let (an, ad, bn, bd) = (a.num as int, a.den as int, b.num as int, b.den as int);
        assert forall|d: int| d > 0 && #[trigger] (an * d) < ad implies bn * d < bd by {
            assert(bn * d < bd) by (nonlinear_arith)
                requires
                    an * bd >= bn * ad,
                    an * d < ad,
                    ad > 0,
                    bd > 0,
                    d > 0,
            {
                assert(an * d * bd < ad * bd);
                assert(bn * ad * d <= an * bd * d);
                assert(bn * d * ad < bd * ad);
            }
        }
        assert(an * 20 < ad ==> bn * 20 < bd);
        assert(an * 10 < ad ==> bn * 10 < bd);
        assert(an * 5 < ad ==> bn * 5 < bd);
        assert(an * 2 < ad ==> bn * 2 < bd);
        assert(an * 1 < ad ==> bn * 1 < bd);
    }
}

/// A request is counted as one for a page resource or as another. By it an address that was not
/// found yet is found to be a scraper exactly when, that request among them, it made at least
/// fifteen requests, ten times those for page resources are fewer than three times the others, the
/// request is none that the site's own pages make, and the user agent is no known crawler.
pub proof fn law_scraper_found(s: LiveSession, status: int, url: Seq<char>, agent: Seq<char>)
    requires
        s.sound(),
        s.total_requests < u64::MAX,
    ensures
        ({
            let r = s.after(status, url, agent);
            let resources = s.static_count + if static_resource(url) {
                1int
            } else {
                0int
            };
            let total = s.total_requests + 1;
            &&& r.total_requests == total
            &&& r.static_count == resources
            &&& r.dynamic_count == total - resources
            &&& s.is_detected ==> r.is_detected && r.detection_type == s.detection_type
            &&& !s.is_detected ==> (r.is_detected <==> total >= 15 && 10 * resources < 3 * (total
                - resources) && !normal_app_api(url) && !known_crawler(agent))
            &&& !s.is_detected ==> r.detection_type == if r.is_detected {
                Some(DetectionType::StealthScraper)
            } else {
                None
            }
        }),
{
}

/// An address with three requests or more for page resources to ten others is not found by them,
/// nor one with as many for page resources as others.
pub proof fn law_ordinary_visitor_spared(
    s: LiveSession,
    status: int,
    url: Seq<char>,
    agent: Seq<char>,
)
    requires
        s.sound(),
        s.total_requests < u64::MAX,
        !s.is_detected,
        s.after(status, url, agent).is_detected,
    ensures
        10 * s.after(status, url, agent).static_count < 3 * s.after(
            status,
            url,
            agent,
        ).dynamic_count,
        s.after(status, url, agent).static_count < s.after(status, url, agent).dynamic_count,
        s.after(status, url, agent).dynamic_count >= 12,
{
}

/// The first `k` requests of an address are those of a scraper: at least fifteen, fewer than three
/// for page resources to ten others, the last neither one that the site's own pages make nor that of
/// a known crawler.
pub open spec fn scraper_by(requests: Seq<RequestText>, k: int) -> bool {
    let resources = requests.take(k).filter(
        |q: RequestText| static_resource(lowercase(q.url)),
    ).len();
    &&& 15 <= k <= requests.len()
    &&& 10 * resources < 3 * (k - resources)
    &&& !normal_app_api(lowercase(requests[k - 1].url))
    &&& !known_crawler(lowercase(requests[k - 1].user_agent))
}

/// An address is a scraper exactly when its requests were those of one at some point. Its counters
/// are the numbers of its requests for page resources and of the others.
pub proof fn law_scrapers_told_by_requests(requests: Seq<RequestText>)
    requires
        requests.len() <= u64::MAX,
    ensures
        session_for::<LiveSession>(requests).sound(),
        session_for::<LiveSession>(requests).total_requests == requests.len(),
        session_for::<LiveSession>(requests).static_count == requests.filter(
            |q: RequestText| static_resource(lowercase(q.url)),
        ).len(),
        session_for::<LiveSession>(requests).is_detected <==> exists|k: int| #[trigger]
            scraper_by(requests, k),
    decreases requests.len(),
{
    reveal(Seq::filter);
    let n = requests.len() as int;
    if n > 0 {
        let rest = requests.drop_last();
        law_scrapers_told_by_requests(rest);
        assert forall|k: int| k <= rest.len() implies scraper_by(rest, k) == #[trigger] scraper_by(
            requests,
            k,
        ) by {
            if 15 <= k {
                assert(rest.take(k) == requests.take(k));
                assert(rest[k - 1] == requests[k - 1]);
            }
        }
        assert(requests.take(n) == requests);
        if session_for::<LiveSession>(rest).is_detected {
            let k = choose|k: int| #[trigger] scraper_by(rest, k);
            assert(scraper_by(requests, k));
        } else {
            if exists|k: int| #[trigger] scraper_by(requests, k) {
                let k = choose|k: int| #[trigger] scraper_by(requests, k);
                if k < n {
                    assert(scraper_by(rest, k));
                }
            }
            assert(scraper_by(requests, n) == session_for::<LiveSession>(requests).is_detected);
        }
    }
}

/// The odds of an address are its requests for page resources to the others; with no others they are
/// as good as a hundred to one, and with no requests nothing.
pub proof fn law_odds_of_counters(s: LiveSession)
    ensures
        s.odds().den > 0,
        s.dynamic_count > 0 ==> s.odds().num * s.dynamic_count == s.static_count * s.odds().den,
        s.dynamic_count == 0 && s.static_count > 0 ==> s.odds().num == 100 * s.odds().den,
        s.dynamic_count == 0 && s.static_count == 0 ==> s.odds().num == 0,
{
}

/// The row of the table in which odds stand is told by where they stand among a twentieth, a tenth,
/// a fifth, a half and the whole.
pub proof fn law_odds_in_row(ratio: Ratio)
    requires
        ratio.den > 0,
    ensures
        odds_row(ratio) == 0 <==> ratio.num == 0,
        odds_row(ratio) <= 1 <==> 20 * ratio.num < ratio.den,
        odds_row(ratio) <= 2 <==> 10 * ratio.num < ratio.den,
        odds_row(ratio) <= 3 <==> 5 * ratio.num < ratio.den,
        odds_row(ratio) <= 4 <==> 2 * ratio.num < ratio.den,
        odds_row(ratio) <= 5 <==> ratio.num < ratio.den,
        0 <= odds_row(ratio) <= 6,
{
}

/// The list of odds has each address once, with its odds, and no address ahead of one with larger
/// odds.
pub proof fn law_odds_listed(s: Seq<(Seq<char>, LiveSession)>, i: int, j: int)
    requires
        0 <= i < j < s.len(),
    ensures
        ({
            let list = sorted(all_odds(s), ratio_order());
            &&& list.len() == s.len()
            &&& list.to_multiset() == all_odds(s).to_multiset()
            &&& all_odds(s)[i].0 == s[i].0
            &&& s[i].1.dynamic_count > 0 ==> all_odds(s)[i].1 == (Ratio {
                num: s[i].1.static_count,
                den: s[i].1.dynamic_count,
            })
            &&& list[i].1.den > 0 && list[j].1.den > 0 ==> list[i].1.num * list[j].1.den
                >= list[j].1.num * list[i].1.den
        }),
{
    law_ratios_ranked(all_odds(s), i, j);
}

} // verus!
