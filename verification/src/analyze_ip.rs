//! Bots told by two signs together: many refused requests, or next to no page resources.

use crate::detection::{session_for, DetectionType, Watched};
use crate::ingress::{
    client_error, is_known_crawler, is_normal_app_api, is_static_resource, known_crawler,
    normal_app_api, static_resource, status_code, RequestText,
};
use crate::text::lowercase;
use vstd::prelude::*;

verus! {

/// The counters of one address.
#[derive(Clone, Copy, Debug, PartialEq, Eq, Structural)]
pub struct LiveSession {
    pub total_requests: u64,
    pub bad_status_count: u64,
    pub dynamic_count: u64,
    pub static_count: u64,
    pub is_detected: bool,
    pub detection_type: Option<DetectionType>,
}

impl LiveSession {
    /// The counters with one more request.
    pub open spec fn counting(self, bad: bool, resource: bool) -> LiveSession {
        LiveSession {
            total_requests: (self.total_requests + 1) as u64,
            bad_status_count: if bad {
                (self.bad_status_count + 1) as u64
            } else {
                self.bad_status_count
            },
            dynamic_count: if resource {
                self.dynamic_count
            } else {
                (self.dynamic_count + 1) as u64
            },
            static_count: if resource {
                (self.static_count + 1) as u64
            } else {
                self.static_count
            },
            ..self
        }
    }

    /// More than four requests in five were refused.
    pub open spec fn scans(self) -> bool {
        5 * self.bad_status_count > 4 * self.total_requests
    }

    /// Fewer than one request in five is for a page resource, and there are at least ten others.
    pub open spec fn scrapes(self) -> bool {
        5 * self.static_count < self.total_requests && self.dynamic_count >= 10
    }

    /// The kind of bot that the counters and the last request speak for, once there are enough
    /// requests to tell.
    pub open spec fn verdict(self, url: Seq<char>, agent: Seq<char>) -> Option<DetectionType> {
        if self.total_requests < 15 || known_crawler(lowercase(agent)) {
            None
        } else if self.scans() {
            Some(DetectionType::VulnerabilityScanner)
        } else if self.scrapes() && !normal_app_api(url) {
            Some(DetectionType::StealthScraper)
        } else {
            None
        }
    }

    /// The counters with one more request.
    fn count(&self, bad: bool, resource: bool) -> (r: LiveSession)
        requires
            self.sound(),
            self.total_requests < u64::MAX,
        ensures
            r == self.counting(bad, resource),
            r.sound() || self.is_detected,
            r.total_requests == self.total_requests + 1,
            r.bad_status_count <= r.total_requests,
            r.static_count + r.dynamic_count == r.total_requests,
    {
        let mut r = *self;
        r.total_requests = r.total_requests + 1;
        if bad {
            r.bad_status_count = r.bad_status_count + 1;
        }
        if resource {
            r.static_count = r.static_count + 1;
        } else {
            r.dynamic_count = r.dynamic_count + 1;
        }
        r
    }

    /// The kind of bot that the counters and the last request speak for.
    fn judge(&self, url: &str, agent: &str) -> (r: Option<DetectionType>)
        ensures
            r == self.verdict(url@, agent@),
    {
        if self.total_requests < 15 {
            return None;
        }
        let scanner = 5 * (self.bad_status_count as u128) > 4 * (self.total_requests as u128);
        let scraper = 5 * (self.static_count as u128) < self.total_requests as u128
            && self.dynamic_count >= 10 && !is_normal_app_api(url);
        if !scanner && !scraper {
            return None;
        }
        if is_known_crawler(agent.to_lowercase().as_str()) {
            return None;
        }
        if scanner {
            Some(DetectionType::VulnerabilityScanner)
        } else {
            Some(DetectionType::StealthScraper)
        }
    }
}

impl Watched for LiveSession {
    open spec fn fresh() -> LiveSession {
        LiveSession {
            total_requests: 0,
            bad_status_count: 0,
            dynamic_count: 0,
            static_count: 0,
            is_detected: false,
            detection_type: None,
        }
    }

    /// Every request is either for a resource or not, no more were refused than made, and a bot
    /// has its kind and at least fifteen requests.
    open spec fn sound(self) -> bool {
        &&& self.static_count + self.dynamic_count == self.total_requests
        &&& self.bad_status_count <= self.total_requests
        &&& self.is_detected <==> self.detection_type is Some
        &&& self.is_detected ==> self.total_requests >= 15
    }

    open spec fn requests(self) -> nat {
        self.total_requests as nat
    }

    open spec fn flagged(self) -> bool {
        self.is_detected
    }

    /// An address that was found is only counted, and then every status from 400 on as refused.
    open spec fn after(self, status: int, url: Seq<char>, agent: Seq<char>) -> LiveSession {
        if self.is_detected {
            self.counting(status >= 400, static_resource(url))
        } else {
            let c = self.counting(client_error(status), static_resource(url));
            let v = c.verdict(url, agent);
            LiveSession { is_detected: v is Some, detection_type: v, ..c }
        }
    }

    proof fn fresh_is_sound() {
    }

    proof fn after_is_sound(s: LiveSession, status: int, url: Seq<char>, agent: Seq<char>) {
    }

    fn start() -> (r: LiveSession) {
        LiveSession {
            total_requests: 0,
            bad_status_count: 0,
            dynamic_count: 0,
            static_count: 0,
            is_detected: false,
            detection_type: None,
        }
    }

    fn is_flagged(&self) -> (r: bool) {
        self.is_detected
    }

    fn observe(&self, status: i32, url: &str, agent: &str) -> (r: LiveSession) {
        let resource = is_static_resource(url);
        if self.is_detected {
            return self.count(status >= 400, resource);
        }
        let bad = status == 400 || status == 401 || status == 403 || status == 404;
        let mut r = self.count(bad, resource);
        r.detection_type = r.judge(url, agent);
        r.is_detected = r.detection_type.is_some();
        r
    }
}

// ---------------------------------------------------------------------------
// Laws
// ---------------------------------------------------------------------------

/// No address is found to be a bot before its fifteenth request, nor on a request of a known
/// crawler.
pub proof fn law_no_hasty_verdict(s: LiveSession, status: int, url: Seq<char>, agent: Seq<char>)
    requires
        s.sound(),
        s.total_requests < u64::MAX,
        !s.is_detected,
        s.after(status, url, agent).is_detected,
    ensures
        s.total_requests + 1 >= 15,
        !known_crawler(lowercase(agent)),
{
}

/// The kind of bot, once found, does not change.
pub proof fn law_kind_stays(s: LiveSession, status: int, url: Seq<char>, agent: Seq<char>)
    requires
        s.is_detected,
    ensures
        s.after(status, url, agent).detection_type == s.detection_type,
{
}

/// A request of an address that was not found yet is counted: as refused where it is answered 400,
/// 401, 403 or 404, and as one for a page resource or as another. By it the address is found to be a
/// bot only with at least fifteen requests, that one among them, and not where the user agent is a
/// known crawler: a scanner where more than four requests in five were refused, else a scraper where
/// fewer than one in five is for a page resource, ten or more are not, and the request is none that
/// the site's own pages make.
pub proof fn law_bot_found(s: LiveSession, status: int, url: Seq<char>, agent: Seq<char>)
    requires
        s.sound(),
        s.total_requests < u64::MAX,
        !s.is_detected,
    ensures
        ({
            let r = s.after(status, url, agent);
            let total = s.total_requests + 1;
            let bad = s.bad_status_count + if status == 400 || status == 401 || status == 403
                || status == 404 {
                1int
            } else {
                0int
            };
            let resources = s.static_count + if static_resource(url) {
                1int
            } else {
                0int
            };
            let told = total >= 15 && !known_crawler(lowercase(agent));
            &&& r.total_requests == total
            &&& r.bad_status_count == bad
            &&& r.static_count == resources
            &&& r.dynamic_count == total - resources
            &&& r.detection_type == Some(DetectionType::VulnerabilityScanner) <==> told && 5 * bad
                > 4 * total
            &&& r.detection_type == Some(DetectionType::StealthScraper) <==> told && 5 * bad <= 4
                * total && 5 * resources < total && total - resources >= 10 && !normal_app_api(url)
            &&& r.is_detected <==> r.detection_type is Some
        }),
{
}

/// An address that was found stays found as what it was, and is counted on, now with every status
/// from 400 on as refused.
pub proof fn law_bot_counted_on(s: LiveSession, status: int, url: Seq<char>, agent: Seq<char>)
    requires
        s.sound(),
        s.total_requests < u64::MAX,
        s.is_detected,
    ensures
        ({
            let r = s.after(status, url, agent);
            &&& r.is_detected
            &&& r.detection_type == s.detection_type
            &&& r.total_requests == s.total_requests + 1
            &&& r.bad_status_count == s.bad_status_count + if status >= 400 {
                1int
            } else {
                0int
            }
            &&& r.static_count == s.static_count + if static_resource(url) {
                1int
            } else {
                0int
            }
            &&& r.static_count + r.dynamic_count == r.total_requests
        }),
{
}

/// An address with a fifth or more of its requests for page resources is never found to be a
/// scraper, nor one with a fifth or more of its requests granted to be a scanner.
pub proof fn law_ordinary_visitor_spared(
    s: LiveSession,
    status: int,
    url: Seq<char>,
    agent: Seq<char>,
)
    requires
        s.sound(),
        s.total_requests < u64::MAX,
        !s.is_detected,
    ensures
        ({
            let r = s.after(status, url, agent);
            &&& r.detection_type == Some(DetectionType::StealthScraper) ==> 5 * r.static_count
                < r.total_requests && r.dynamic_count >= 12
            &&& r.detection_type == Some(DetectionType::VulnerabilityScanner) ==> 5 * (
            r.total_requests - r.bad_status_count) < r.total_requests && r.bad_status_count >= 13
        }),
{
}

/// The requests that were refused.
pub open spec fn refused_among(requests: Seq<RequestText>) -> nat {
    requests.filter(|q: RequestText| client_error(status_code(q.status))).len()
}

/// The requests for page resources.
pub open spec fn resources_among(requests: Seq<RequestText>) -> nat {
    requests.filter(|q: RequestText| static_resource(lowercase(q.url))).len()
}

/// The kind of bot that the first `k` requests of an address speak for.
pub open spec fn kind_by(requests: Seq<RequestText>, k: int) -> Option<DetectionType> {
    let (q, seen) = (requests[k - 1], requests.take(k));
    if !(15 <= k <= requests.len()) || known_crawler(lowercase(lowercase(q.user_agent))) {
        None
    } else if 5 * refused_among(seen) > 4 * k {
        Some(DetectionType::VulnerabilityScanner)
    } else if 5 * resources_among(seen) < k && k - resources_among(seen) >= 10 && !normal_app_api(
        lowercase(q.url),
    ) {
        Some(DetectionType::StealthScraper)
    } else {
        None
    }
}

/// `k` is the first number of requests that speak for a bot.
pub open spec fn first_sign(requests: Seq<RequestText>, k: int) -> bool {
    kind_by(requests, k) is Some && forall|j: int| j < k ==> #[trigger] kind_by(requests, j) is None
}

/// An address is a bot exactly when its requests spoke for one at some point, and then of the kind
/// that they spoke for at first. Its counters are the numbers of its requests and of those for page
/// resources, and until it is found that of those refused.
pub proof fn law_bots_told_by_requests(requests: Seq<RequestText>)
    requires
        requests.len() <= u64::MAX,
    ensures
        ({
            let s = session_for::<LiveSession>(requests);
            &&& s.sound()
            &&& s.total_requests == requests.len()
            &&& s.static_count == resources_among(requests)
            &&& !s.is_detected ==> s.bad_status_count == refused_among(requests)
            &&& s.is_detected <==> exists|k: int| #[trigger] first_sign(requests, k)
            &&& forall|k: int| #[trigger]
                first_sign(requests, k) ==> s.detection_type == kind_by(requests, k)
            &&& !s.is_detected ==> forall|k: int| #[trigger] kind_by(requests, k) is None
        }),
    decreases requests.len(),
{
    reveal(Seq::filter);
    let n = requests.len() as int;
    if n > 0 {
        let rest = requests.drop_last();
        law_bots_told_by_requests(rest);
        let (before, s) = (session_for::<LiveSession>(rest), session_for::<LiveSession>(requests));
        assert forall|k: int| k < n implies kind_by(rest, k) == #[trigger] kind_by(requests, k) by {
            if 15 <= k {
                assert(rest.take(k) == requests.take(k));
                assert(rest[k - 1] == requests[k - 1]);
            }
        }
        assert(requests.take(n) == requests);
        if before.is_detected {
            let f = choose|k: int| #[trigger] first_sign(rest, k);
            assert(f < n);
            assert(kind_by(requests, f) == kind_by(rest, f));
            assert forall|j: int| j < f implies #[trigger] kind_by(requests, j) is None by {
                assert(kind_by(rest, j) is None);
            }
            assert(first_sign(requests, f));
            assert forall|k: int| #[trigger] first_sign(requests, k) implies s.detection_type
                == kind_by(requests, k) by {
                if k < f {
                    assert(kind_by(requests, k) is None);
                } else if f < k {
                    assert(kind_by(requests, f) is None);
                }
            }
        } else {
            assert forall|j: int| j < n implies #[trigger] kind_by(requests, j) is None by {
                assert(kind_by(rest, j) is None);
            }
            assert(kind_by(requests, n) == s.detection_type);
            if s.is_detected {
                assert(first_sign(requests, n));
            }
            assert forall|k: int| #[trigger] first_sign(requests, k) implies k == n by {
                assert(kind_by(requests, k) is Some);
            }
        }
    } else {
        assert forall|k: int| #[trigger] kind_by(requests, k) is None by {}
    }
}

} // verus!
