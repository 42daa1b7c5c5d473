//! Watching the requests of each address for the behaviour of a bot.

use crate::ingress::{
    is_relevant, parse_status, relevant, request_in_line, request_view, status_code, Request,
    RequestFormat, RequestText,
};
use crate::keyed::{distinct, has_key, is_at, lemma_spot, spot, stored, Keyed};
use crate::order::{law_sorted_keeps_values, lemma_sorted_map, rank, sort, sorted, text_order};
use crate::text::{lowercase, texts};
use vstd::prelude::*;

verus! {

/// The kind of bot that an address was found to be.
#[derive(Clone, Copy, Debug, PartialEq, Eq, Structural)]
pub enum DetectionType {
    VulnerabilityScanner,
    StealthScraper,
}

impl DetectionType {
    /// The name of the kind.
    pub open spec fn name(self) -> Seq<char> {
        match self {
            DetectionType::VulnerabilityScanner => "Vulnerability Scanner"@,
            DetectionType::StealthScraper => "Stealth Scraper"@,
        }
    }

    /// The name of the kind.
    pub fn as_str(&self) -> (r: &'static str)
        ensures
            r@ == self.name(),
    {
        match self {
            DetectionType::VulnerabilityScanner => "Vulnerability Scanner",
            DetectionType::StealthScraper => "Stealth Scraper",
        }
    }
}

/// The name of a kind that may not be known.
pub open spec fn detection_name(t: Option<DetectionType>) -> Seq<char> {
    match t {
        Some(d) => d.name(),
        None => "Unknown"@,
    }
}

/// The name of a kind that may not be known.
pub fn name_of_detection(t: Option<DetectionType>) -> (r: &'static str)
    ensures
        r@ == detection_name(t),
{
    match t {
        Some(d) => d.as_str(),
        None => "Unknown",
    }
}

// ---------------------------------------------------------------------------
// Sessions
// ---------------------------------------------------------------------------

/// The counters of one address, and the rule by which they give it away.
pub trait Watched: Sized {
    /// No request has come yet.
    spec fn fresh() -> Self;

    /// The counters agree with each other.
    spec fn sound(self) -> bool;

    /// The number of requests so far.
    spec fn requests(self) -> nat;

    /// The address was found to be a bot.
    spec fn flagged(self) -> bool;

    /// The counters after one more request, with its path and user agent in lower case.
    spec fn after(self, status: int, url: Seq<char>, agent: Seq<char>) -> Self;

    /// The counters start at nothing.
    proof fn fresh_is_sound()
        ensures
            Self::fresh().sound(),
            Self::fresh().requests() == 0,
            !Self::fresh().flagged(),
    ;

    /// A request is counted once, and what was found stays found.
    proof fn after_is_sound(s: Self, status: int, url: Seq<char>, agent: Seq<char>)
        requires
            s.sound(),
            s.requests() < u64::MAX,
        ensures
            s.after(status, url, agent).sound(),
            s.after(status, url, agent).requests() == s.requests() + 1,
            s.flagged() ==> s.after(status, url, agent).flagged(),
    ;

    /// No request has come yet.
    fn start() -> (r: Self)
        ensures
            r == Self::fresh(),
    ;

    /// The address was found to be a bot.
    fn is_flagged(&self) -> (r: bool)
        ensures
            r == self.flagged(),
    ;

    /// The counters after one more request.
    fn observe(&self, status: i32, url: &str, agent: &str) -> (r: Self)
        requires
            self.sound(),
            self.requests() < u64::MAX,
        ensures
            r == self.after(status as int, url@, agent@),
    ;
}

// ---------------------------------------------------------------------------
// Specification
// ---------------------------------------------------------------------------

/// What a monitor has seen.
pub struct MonitorState<S> {
    /// The counters of each address, in the order in which the addresses came.
    pub sessions: Seq<(Seq<char>, S)>,
    /// The lines read.
    pub total_lines: nat,
    /// The lines that count.
    pub relevant_lines: nat,
    /// The addresses found to be bots.
    pub bots: nat,
}

/// The counters of an address.
pub open spec fn session_of<S: Watched>(sessions: Seq<(Seq<char>, S)>, ip: Seq<char>) -> S {
    if has_key(sessions, ip) {
        sessions[spot(sessions, ip)].1
    } else {
        S::fresh()
    }
}

/// The counters of the address of a request, after that request.
pub open spec fn session_after<S: Watched>(
    sessions: Seq<(Seq<char>, S)>,
    q: RequestText,
) -> S {
    session_of(sessions, q.ip).after(
        status_code(q.status),
        lowercase(q.url),
        lowercase(q.user_agent),
    )
}

/// The request gives its address away as a bot.
pub open spec fn unmasks<S: Watched>(sessions: Seq<(Seq<char>, S)>, q: RequestText) -> bool {
    relevant(q) && !session_of(sessions, q.ip).flagged() && session_after(sessions, q).flagged()
}

/// What a monitor has seen after one more line, in which there may be a request.
pub open spec fn step<S: Watched>(m: MonitorState<S>, q: Option<RequestText>) -> MonitorState<S> {
    match q {
        Some(request) if relevant(request) => MonitorState {
            sessions: stored(m.sessions, request.ip, session_after(m.sessions, request)),
            total_lines: m.total_lines + 1,
            relevant_lines: m.relevant_lines + 1,
            bots: m.bots + if unmasks(m.sessions, request) {
                1nat
            } else {
                0nat
            },
        },
        _ => MonitorState { total_lines: m.total_lines + 1, ..m },
    }
}

/// The requests of all addresses together.
pub open spec fn request_sum<S: Watched>(s: Seq<(Seq<char>, S)>) -> nat
    decreases s.len(),
{
    if s.len() == 0 {
        0
    } else {
        request_sum(s.drop_last()) + s.last().1.requests()
    }
}

/// The addresses found to be bots.
pub open spec fn flagged_keys<S: Watched>(s: Seq<(Seq<char>, S)>) -> Seq<Seq<char>>
    decreases s.len(),
{
    if s.len() == 0 {
        Seq::empty()
    } else if s.last().1.flagged() {
        flagged_keys(s.drop_last()).push(s.last().0)
    } else {
        flagged_keys(s.drop_last())
    }
}

/// The counters of every address are sound, and the totals agree with them.
pub open spec fn consistent<S: Watched>(m: MonitorState<S>) -> bool {
    &&& distinct(m.sessions)
    &&& forall|i: int| 0 <= i < m.sessions.len() ==> (#[trigger] m.sessions[i]).1.sound()
    &&& request_sum(m.sessions) == m.relevant_lines
    &&& flagged_keys(m.sessions).len() == m.bots
    &&& m.relevant_lines <= m.total_lines
}

// ---------------------------------------------------------------------------
// Lemmas
// ---------------------------------------------------------------------------

proof fn lemma_request_in_sum<S: Watched>(s: Seq<(Seq<char>, S)>, i: int)
    requires
        0 <= i < s.len(),
    ensures
        s[i].1.requests() <= request_sum(s),
    decreases s.len(),
{
    if i < s.len() - 1 {
        lemma_request_in_sum(s.drop_last(), i);
    }
}

proof fn lemma_totals_update<S: Watched>(s: Seq<(Seq<char>, S)>, i: int, v: S)
    requires
        0 <= i < s.len(),
    ensures
        request_sum(s.update(i, (s[i].0, v))) == request_sum(s) - s[i].1.requests() + v.requests(),
        flagged_keys(s.update(i, (s[i].0, v))).len() == flagged_keys(s).len() - (
        if s[i].1.flagged() {
            1int
        } else {
            0int
        }) + (if v.flagged() {
            1int
        } else {
            0int
        }),
    decreases s.len(),
{
    let r = s.update(i, (s[i].0, v));
    if i < s.len() - 1 {
        lemma_totals_update(s.drop_last(), i, v);
        assert(r.drop_last() == s.drop_last().update(i, (s[i].0, v)));
    } else {
        assert(r.drop_last() == s.drop_last());
    }
}

/// A line keeps the totals in agreement with the counters of the addresses.
pub proof fn law_step_consistent<S: Watched>(m: MonitorState<S>, q: Option<RequestText>)
    requires
        consistent(m),
        m.total_lines < u64::MAX,
    ensures
        consistent(step(m, q)),
        step(m, q).total_lines == m.total_lines + 1,
{
    if let Some(request) = q {
        if relevant(request) {
            let s = m.sessions;
            let ip = request.ip;
            let before = session_of(s, ip);
            let v = session_after(s, request);
            let r = stored(s, ip, v);
            S::fresh_is_sound();
            if has_key(s, ip) {
                let i = spot(s, ip);
                assert(is_at(s, ip, i));
                lemma_request_in_sum(s, i);
                S::after_is_sound(
                    before,
                    status_code(request.status),
                    lowercase(request.url),
                    lowercase(request.user_agent),
                );
                lemma_totals_update(s, i, v);
                assert(r == s.update(i, (s[i].0, v)));
                assert forall|a: int, b: int| 0 <= a < b < r.len() implies (#[trigger] r[a]).0 != (
                #[trigger] r[b]).0 by {
                    assert(s[a].0 != s[b].0);
                }
            } else {
                S::after_is_sound(
                    before,
                    status_code(request.status),
                    lowercase(request.url),
                    lowercase(request.user_agent),
                );
                assert(r.drop_last() == s);
                assert forall|a: int, b: int| 0 <= a < b < r.len() implies (#[trigger] r[a]).0 != (
                #[trigger] r[b]).0 by {
                    assert(!is_at(s, ip, a));
                    if b < s.len() {
                        assert(s[a].0 != s[b].0);
                    }
                }
            }
        }
    }
}

/// What was found stays found: an address that is a bot remains one, whatever comes.
pub proof fn law_flag_stays<S: Watched>(m: MonitorState<S>, q: Option<RequestText>, ip: Seq<char>)
    requires
        consistent(m),
        m.total_lines < u64::MAX,
        session_of(m.sessions, ip).flagged(),
    ensures
        session_of(step(m, q).sessions, ip).flagged(),
{
    S::fresh_is_sound();
    if let Some(request) = q {
        if relevant(request) {
            let s = m.sessions;
            let r = step(m, q).sessions;
            law_step_consistent(m, q);
            let i = spot(s, ip);
            assert(is_at(s, ip, i));
            assert(is_at(r, ip, i)) by {
                if has_key(s, request.ip) {
                    assert(is_at(s, request.ip, spot(s, request.ip)));
                }
            }
            lemma_spot(r, ip, i);
            lemma_request_in_sum(s, i);
            S::after_is_sound(
                s[i].1,
                status_code(request.status),
                lowercase(request.url),
                lowercase(request.user_agent),
            );
            if has_key(s, request.ip) {
                assert(is_at(s, request.ip, spot(s, request.ip)));
            }
        }
    }
}

/// A request that does not count leaves every address as it was.
pub proof fn law_irrelevant_ignored<S: Watched>(m: MonitorState<S>, q: RequestText)
    requires
        !relevant(q),
    ensures
        step(m, Some(q)).sessions == m.sessions,
        step(m, Some(q)).relevant_lines == m.relevant_lines,
        step(m, Some(q)).bots == m.bots,
{
}

/// A request changes the counters of its own address only.
pub proof fn law_other_addresses_untouched<S: Watched>(
    m: MonitorState<S>,
    q: RequestText,
    ip: Seq<char>,
)
    requires
        consistent(m),
        m.total_lines < u64::MAX,
        ip != q.ip,
    ensures
        session_of(step(m, Some(q)).sessions, ip) == session_of(m.sessions, ip),
{
    if relevant(q) {
        let s = m.sessions;
        let r = step(m, Some(q)).sessions;
        law_step_consistent(m, Some(q));
        if has_key(s, q.ip) {
            assert(is_at(s, q.ip, spot(s, q.ip)));
        }
        if has_key(s, ip) {
            let i = spot(s, ip);
            assert(is_at(s, ip, i));
            assert(is_at(r, ip, i));
            lemma_spot(r, ip, i);
        }
        if has_key(r, ip) {
            let i = spot(r, ip);
            assert(is_at(r, ip, i));
            assert(is_at(s, ip, i));
            lemma_spot(s, ip, i);
        }
    }
}

/// What a monitor has seen after all lines of a log, in each of which there may be a request.
pub open spec fn after_lines<S: Watched>(lines: Seq<Option<RequestText>>) -> MonitorState<S>
    decreases lines.len(),
{
    if lines.len() == 0 {
        MonitorState { sessions: Seq::empty(), total_lines: 0, relevant_lines: 0, bots: 0 }
    } else {
        step(after_lines(lines.drop_last()), lines.last())
    }
}

/// The requests of one address that count.
pub open spec fn requests_of(lines: Seq<Option<RequestText>>, ip: Seq<char>) -> Seq<RequestText>
    decreases lines.len(),
{
    if lines.len() == 0 {
        Seq::empty()
    } else {
        let rest = requests_of(lines.drop_last(), ip);
        match lines.last() {
            Some(q) if relevant(q) && q.ip == ip => rest.push(q),
            _ => rest,
        }
    }
}

/// The counters of an address after all its requests.
pub open spec fn session_for<S: Watched>(requests: Seq<RequestText>) -> S
    decreases requests.len(),
{
    if requests.len() == 0 {
        S::fresh()
    } else {
        let q = requests.last();
        session_for::<S>(requests.drop_last()).after(
            status_code(q.status),
            lowercase(q.url),
            lowercase(q.user_agent),
        )
    }
}

proof fn lemma_lines_consistent<S: Watched>(lines: Seq<Option<RequestText>>)
    requires
        lines.len() <= u64::MAX,
    ensures
        consistent(after_lines::<S>(lines)),
        after_lines::<S>(lines).total_lines == lines.len(),
    decreases lines.len(),
{
    if lines.len() > 0 {
        lemma_lines_consistent::<S>(lines.drop_last());
        law_step_consistent(after_lines::<S>(lines.drop_last()), lines.last());
    }
}

/// The counters of an address come from its own requests alone: from those that count, in the order
/// of the lines, and whatever else the log holds. An address has counters exactly when it made such
/// a request.
pub proof fn law_addresses_apart<S: Watched>(lines: Seq<Option<RequestText>>, ip: Seq<char>)
    requires
        lines.len() <= u64::MAX,
    ensures
        session_of(after_lines::<S>(lines).sessions, ip) == session_for::<S>(
            requests_of(lines, ip),
        ),
        has_key(after_lines::<S>(lines).sessions, ip) <==> requests_of(lines, ip).len() > 0,
    decreases lines.len(),
{
    let m = after_lines::<S>(lines);
    if lines.len() == 0 {
        if has_key(m.sessions, ip) {
            assert(is_at(m.sessions, ip, spot(m.sessions, ip)));
        }
    } else {
        let before = after_lines::<S>(lines.drop_last());
        law_addresses_apart::<S>(lines.drop_last(), ip);
        lemma_lines_consistent::<S>(lines.drop_last());
        lemma_lines_consistent::<S>(lines);
        let rest = requests_of(lines.drop_last(), ip);
        if let Some(q) = lines.last() {
            if relevant(q) {
                let s = before.sessions;
                let r = m.sessions;
                if has_key(s, q.ip) {
                    assert(is_at(s, q.ip, spot(s, q.ip)));
                }
                if q.ip == ip {
                    assert(rest.push(q).drop_last() == rest);
                    let i = if has_key(s, ip) {
                        spot(s, ip)
                    } else {
                        s.len() as int
                    };
                    assert(is_at(r, ip, i));
                    lemma_spot(r, ip, i);
                } else {
                    law_other_addresses_untouched(before, q, ip);
                    if has_key(s, ip) {
                        assert(is_at(s, ip, spot(s, ip)));
                        assert(is_at(r, ip, spot(s, ip)));
                    }
                    if has_key(r, ip) {
                        assert(is_at(r, ip, spot(r, ip)));
                        assert(is_at(s, ip, spot(r, ip)));
                    }
                }
            }
        }
    }
}

// ---------------------------------------------------------------------------
// Monitor
// ---------------------------------------------------------------------------

/// An address has just been found to be a bot.
pub struct Alert {
    /// The address.
    pub ip: String,
    /// How many were found so far, this one among them.
    pub number: u64,
    /// It is among the first twenty, which are reported at once.
    pub shown: bool,
}

/// Watches the requests of a log, address by address.
pub struct Monitor<S: Watched> {
    sessions: Keyed<S>,
    total_lines: u64,
    relevant_lines: u64,
    bots: u64,
}

impl<S: Watched> Monitor<S> {
    /// What the monitor has seen.
    pub closed spec fn state(self) -> MonitorState<S> {
        MonitorState {
            sessions: self.sessions.entries(),
            total_lines: self.total_lines as nat,
            relevant_lines: self.relevant_lines as nat,
            bots: self.bots as nat,
        }
    }

    /// The monitor is in order.
    pub closed spec fn wf(self) -> bool {
        self.sessions.wf() && consistent(self.state())
    }

    /// The totals agree with the counters of the addresses.
    pub proof fn law_consistent(self)
        requires
            self.wf(),
        ensures
            consistent(self.state()),
    {
    }

    /// Nothing has been seen yet.
    pub fn new() -> (r: Monitor<S>)
        ensures
            r.wf(),
            r.state() == (MonitorState::<S> {
                sessions: Seq::empty(),
                total_lines: 0,
                relevant_lines: 0,
                bots: 0,
            }),
    {
        Monitor { sessions: Keyed::new(), total_lines: 0, relevant_lines: 0, bots: 0 }
    }

    /// The lines read.
    pub fn total_lines(&self) -> (r: u64)
        ensures
            r == self.state().total_lines,
    {
        self.total_lines
    }

    /// The lines that count.
    pub fn relevant_lines(&self) -> (r: u64)
        ensures
            r == self.state().relevant_lines,
    {
        self.relevant_lines
    }

    /// The addresses found to be bots.
    pub fn bots(&self) -> (r: u64)
        ensures
            r == self.state().bots,
    {
        self.bots
    }

    /// The number of addresses.
    pub fn len(&self) -> (r: usize)
        ensures
            r == self.state().sessions.len(),
    {
        self.sessions.len()
    }

    /// The address at a position.
    pub fn address(&self, i: usize) -> (r: &String)
        requires
            self.wf(),
            i < self.state().sessions.len(),
        ensures
            r@ == self.state().sessions[i as int].0,
    {
        self.sessions.key(i)
    }

    /// The counters at a position.
    pub fn session(&self, i: usize) -> (r: &S)
        requires
            self.wf(),
            i < self.state().sessions.len(),
        ensures
            *r == self.state().sessions[i as int].1,
    {
        self.sessions.value(i)
    }

    /// The counters of an address, where it has been seen.
    pub fn lookup(&self, ip: &str) -> (r: Option<&S>)
        requires
            self.wf(),
        ensures
            match r {
                Some(s) => has_key(self.state().sessions, ip@) && *s == session_of(
                    self.state().sessions,
                    ip@,
                ),
                None => !has_key(self.state().sessions, ip@),
            },
    {
        match self.sessions.position(ip) {
            Some(i) => Some(self.sessions.value(i)),
            None => None,
        }
    }

    /// Takes note of one more line, in which there may be a request.
    pub fn observe(&mut self, q: Option<Request>) -> (r: Option<Alert>)
        requires
            old(self).wf(),
            old(self).state().total_lines < u64::MAX,
        ensures
            final(self).wf(),
            final(self).state() == step(old(self).state(), request_view(q)),
            match r {
                Some(a) => q matches Some(request) && unmasks(old(self).state().sessions, request@)
                    && a.ip@ == request.ip@ && a.number == final(self).state().bots && a.shown == (
                a.number <= 20),
                None => !(q matches Some(request) && unmasks(
                    old(self).state().sessions,
                    request@,
                )),
            },
    {
        proof {
            law_step_consistent(self.state(), request_view(q));
        }
        let ghost m0 = self.state();
        self.total_lines = self.total_lines + 1;
        let request = match q {
            Some(request) => request,
            None => {
                return None;
            },
        };
        if !is_relevant(&request) {
            return None;
        }
        self.relevant_lines = self.relevant_lines + 1;
        let status = parse_status(request.status.as_str());
        let url = request.url.as_str().to_lowercase();
        let agent = request.user_agent.as_str().to_lowercase();
        let position = self.sessions.position(request.ip.as_str());
        let (before, after) = match position {
            Some(i) => {
                proof {
                    lemma_request_in_sum(m0.sessions, i as int);
                }
                let s = self.sessions.value(i);
                (s.is_flagged(), s.observe(status, url.as_str(), agent.as_str()))
            },
            None => {
                proof {
                    S::fresh_is_sound();
                }
                let s = S::start();
                (s.is_flagged(), s.observe(status, url.as_str(), agent.as_str()))
            },
        };
        let found = !before && after.is_flagged();
        self.sessions.store(request.ip.as_str(), after);
        if found {
            let addresses = self.sessions.len();
            proof {
                lemma_flagged_bound(self.sessions.entries());
                assert(self.bots < addresses);
            }
            self.bots = self.bots + 1;
            let number = self.bots;
            return Some(Alert { ip: request.ip, number, shown: number <= 20 });
        }
        None
    }

    /// Takes note of one more line.
    pub fn observe_line(&mut self, format: &RequestFormat, line: &str) -> (r: Option<Alert>)
        requires
            old(self).wf(),
            old(self).state().total_lines < u64::MAX,
            format.wf(),
        ensures
            final(self).wf(),
            final(self).state() == step(old(self).state(), request_in_line(line@)),
            match r {
                Some(a) => request_in_line(line@) matches Some(request) && unmasks(
                    old(self).state().sessions,
                    request,
                ) && a.ip@ == request.ip && a.number == final(self).state().bots && a.shown == (
                a.number <= 20),
                None => !(request_in_line(line@) matches Some(request) && unmasks(
                    old(self).state().sessions,
                    request,
                )),
            },
    {
        let q = format.parse(line);
        self.observe(q)
    }

    /// The addresses found to be bots, in the order of their texts.
    pub fn flagged_addresses(&self) -> (r: Vec<String>)
        requires
            self.wf(),
        ensures
            texts(r@) == sorted(flagged_keys(self.state().sessions), text_order()),
            r@.len() == self.state().bots,
    {
        let ghost all = self.state().sessions;
        let mut found: Vec<String> = Vec::new();
        let mut i: usize = 0;
        assert(all.take(0) == Seq::<(Seq<char>, S)>::empty());
        while i < self.sessions.len()
            invariant
                self.wf(),
                all == self.sessions.entries(),
                i <= all.len(),
                texts(found@) == flagged_keys(all.take(i as int)),
            decreases all.len() - i,
        {
            assert(all.take(i + 1).drop_last() == all.take(i as int));
            let ghost found0 = found@;
            if self.sessions.value(i).is_flagged() {
                found.push(self.sessions.key(i).clone());
                assert(texts(found@) == texts(found0).push(all[i as int].0));
            }
            i += 1;
        }
        assert(all.take(i as int) == all);
        let ghost list = found@;
        let r = sort(found);
        proof {
            lemma_sorted_map(list, rank::<String>(), |s: String| s@, text_order());
            law_sorted_keeps_values(list, rank::<String>());
            assert(texts(r@) == sorted(texts(list), text_order()));
        }
        r
    }
}

proof fn lemma_flagged_bound<S: Watched>(s: Seq<(Seq<char>, S)>)
    ensures
        flagged_keys(s).len() <= s.len(),
    decreases s.len(),
{
    if s.len() > 0 {
        lemma_flagged_bound(s.drop_last());
    }
}

/// Every line of a log is counted, and as one that counts exactly when it holds a request that does.
pub proof fn law_lines_counted<S: Watched>(lines: Seq<Option<RequestText>>)
    ensures
        after_lines::<S>(lines).total_lines == lines.len(),
        after_lines::<S>(lines).relevant_lines == lines.filter(
            |q: Option<RequestText>| q is Some && relevant(q->0),
        ).len(),
    decreases lines.len(),
{
    reveal(Seq::filter);
    if lines.len() > 0 {
        law_lines_counted::<S>(lines.drop_last());
    }
}

/// The requests of an address that count are those among the lines that count and come from it, in
/// the order of the lines.
pub proof fn law_requests_picked(lines: Seq<Option<RequestText>>, ip: Seq<char>)
    ensures
        requests_of(lines, ip) == lines.filter(
            |q: Option<RequestText>| q is Some && relevant(q->0) && q->0.ip == ip,
        ).map_values(|q: Option<RequestText>| q->0),
    decreases lines.len(),
{
    reveal(Seq::filter);
    let mine = |q: Option<RequestText>| q is Some && relevant(q->0) && q->0.ip == ip;
    let inside = |q: Option<RequestText>| q->0;
    if lines.len() > 0 {
        let rest = lines.drop_last();
        law_requests_picked(rest, ip);
        if mine(lines.last()) {
            assert(lines.filter(mine) == rest.filter(mine).push(lines.last()));
            assert(lines.filter(mine).map_values(inside) == rest.filter(mine).map_values(
                inside,
            ).push(lines.last()->0));
        }
    } else {
        assert(lines.filter(mine).map_values(inside) == Seq::<RequestText>::empty());
    }
}

/// The addresses reported as bots are exactly those whose counters say so, in the order in which the
/// addresses came.
pub proof fn law_bots_listed<S: Watched>(s: Seq<(Seq<char>, S)>)
    ensures
        flagged_keys(s) == s.filter(|e: (Seq<char>, S)| e.1.flagged()).map_values(
            |e: (Seq<char>, S)| e.0,
        ),
    decreases s.len(),
{
    reveal(Seq::filter);
    let found = |e: (Seq<char>, S)| e.1.flagged();
    let key = |e: (Seq<char>, S)| e.0;
    if s.len() > 0 {
        let rest = s.drop_last();
        law_bots_listed(rest);
        if s.last().1.flagged() {
            assert(s.filter(found) == rest.filter(found).push(s.last()));
            assert(s.filter(found).map_values(key) == rest.filter(found).map_values(key).push(
                s.last().0,
            ));
        }
    } else {
        assert(s.filter(found).map_values(key) == Seq::<Seq<char>>::empty());
    }
}

/// A request gives an address away at most once: after it the address is known for a bot, and no
/// later request gives it away again.
pub proof fn law_given_away_once<S: Watched>(m: MonitorState<S>, q: RequestText, later: RequestText)
    requires
        consistent(m),
        m.total_lines < u64::MAX,
        unmasks(m.sessions, q),
        later.ip == q.ip,
    ensures
        session_of(step(m, Some(q)).sessions, q.ip).flagged(),
        step(m, Some(q)).bots == m.bots + 1,
        !unmasks(step(m, Some(q)).sessions, later),
{
    let r = step(m, Some(q)).sessions;
    law_step_consistent(m, Some(q));
    let i = if has_key(m.sessions, q.ip) {
        spot(m.sessions, q.ip)
    } else {
        m.sessions.len() as int
    };
    if has_key(m.sessions, q.ip) {
        assert(is_at(m.sessions, q.ip, i));
    }
    assert(is_at(r, q.ip, i));
    lemma_spot(r, q.ip, i);
}

} // verus!
