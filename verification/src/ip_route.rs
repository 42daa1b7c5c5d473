//! Visits found in the access log: the page requests of an address, cut where it was idle.

use crate::ingress::{
    internal_ip, is_internal_ip, is_own_host, is_static_resource, own_host, request_from_groups,
    request_in, static_resource, Request, RequestText, TIMED_PATTERN,
};
use crate::keyed::{
    distinct, filed, filed_all, filed_onto, has_key, is_at, item_count, items_under,
    law_filed_lists, law_filed_onto_count, lemma_filed_split, lemma_spot, spot,
};
use crate::number::{
    decimal, is_digit, law_decimal_injective, law_decimal_value, law_other_text_refused,
    law_unsigned_exact, parse_unsigned, to_decimal, unsigned_value,
};
use crate::order::{in_order, law_sorted_keeps_values};
use crate::pattern::{group, group_at, groups_seq, regex_groups, Matcher};
use crate::route::{bare_path, strip_path, BadTime};
use crate::stamp::{read_time, time_millis, TimeError};
use crate::text::{
    append, contains, has_text, is_empty, law_found_text_parts, law_pieces_cut, law_text_found,
    law_whole_piece, lemma_pieces_nonempty, lowercase, pieces, same_text, split, texts,
};
use crate::visits::{
    event_views, in_time_order, law_trace_exact, lemma_timeline, time_order, timeline, trace_of,
    Event, PathRules, VisitLog, WebEvent,
};
use vstd::prelude::*;
use vstd::seq_lib::lemma_multiset_commutative;

verus! {

/// Visits with fewer events than this are left out.
pub const MIN_EVENTS: usize = 30;

/// An address that is idle for this long or longer, in milliseconds, begins a new visit: half an
/// hour.
pub const SESSION_GAP_MS: i64 = 1_800_000;

/// How the access log writes points in time.
pub const TIME_FORMAT: &'static str = "%d/%b/%Y:%H:%M:%S %z";

// ---------------------------------------------------------------------------
// Categories
// ---------------------------------------------------------------------------

/// The category of a path, told from what stands before the query: a list, a search, a single
/// entry, or none.
pub open spec fn category_of(path: Seq<char>) -> Seq<char> {
    let p = pieces(bare_path(path), '?')[0];
    if p == "/"@ || p.len() == 0 || has_text(p, "/api/items"@) || has_text(p, "/items/list"@)
        || has_text(p, "/t"@) {
        "[List]"@
    } else if has_text(p, "/search"@) || has_text(p, "/category"@) {
        "[Search]"@
    } else if has_text(p, "/i/"@) || has_text(p, "/post"@) {
        "[Detail]"@
    } else {
        ""@
    }
}

/// The category of a path.
pub fn categorize_path(path: &str) -> (r: String)
    ensures
        r@ == category_of(path@),
{
    let parts = split(strip_path(path).as_str(), '?');
    proof {
        lemma_pieces_nonempty(bare_path(path@), '?');
        assert(texts(parts@)[0] == parts@[0]@);
    }
    let p = parts[0].as_str();
    if same_text(p, "/") || is_empty(p) || contains(p, "/api/items") || contains(p, "/items/list")
        || contains(p, "/t") {
        "[List]".to_owned()
    } else if contains(p, "/search") || contains(p, "/category") {
        "[Search]".to_owned()
    } else if contains(p, "/i/") || contains(p, "/post") {
        "[Detail]".to_owned()
    } else {
        "".to_owned()
    }
}

/// The categories of requests in the access log.
pub struct Requests;

impl PathRules for Requests {
    open spec fn category(path: Seq<char>) -> Seq<char> {
        category_of(path)
    }

    fn categorize(path: &str) -> (r: String) {
        categorize_path(path)
    }
}

// ---------------------------------------------------------------------------
// Requests
// ---------------------------------------------------------------------------

/// The user agent, in lower case, says that it is a bot or the uptime monitor.
pub open spec fn automatic_agent(agent: Seq<char>) -> bool {
    has_text(agent, "uptime-kuma"@) || has_text(agent, "googlebot"@) || has_text(agent, "bot"@)
}

/// The user agent, in lower case, says that it is a bot or the uptime monitor.
pub fn is_automatic_agent(agent: &str) -> (r: bool)
    ensures
        r == automatic_agent(agent@),
{
    contains(agent, "uptime-kuma") || contains(agent, "googlebot") || contains(agent, "bot")
}

/// The status that a text states, 0 where it states none.
pub open spec fn response_code(status: Seq<char>) -> nat {
    match unsigned_value(status, u32::MAX as nat) {
        Some(n) => n,
        None => 0,
    }
}

/// The request is for a page and was granted: it is for the site, neither from a bot nor from
/// within, not refused, and not for a resource of a page.
pub open spec fn page_request(q: RequestText) -> bool {
    own_host(q.host) && !automatic_agent(lowercase(q.user_agent)) && !internal_ip(q.ip)
        && response_code(q.status) < 400 && !static_resource(lowercase(q.url))
}

/// The request is for a page and was granted.
pub fn is_page_request(q: &Request) -> (r: bool)
    ensures
        r == page_request(q@),
{
    if !is_own_host(q.host.as_str()) {
        return false;
    }
    if is_automatic_agent(q.user_agent.as_str().to_lowercase().as_str()) {
        return false;
    }
    if is_internal_ip(q.ip.as_str()) {
        return false;
    }
    let status = match parse_unsigned(q.status.as_str(), u32::MAX as u64) {
        Some(n) => n,
        None => 0,
    };
    if status >= 400 {
        return false;
    }
    !is_static_resource(q.url.as_str().to_lowercase().as_str())
}

/// The addresses with their page requests, after one more request with what was read from its time.
/// A request whose time cannot be read, or reads as 0, is left out.
pub open spec fn with_request(
    by_ip: Seq<(Seq<char>, Seq<Event>)>,
    q: RequestText,
    parsed: Result<i64, TimeError>,
) -> Seq<(Seq<char>, Seq<Event>)> {
    match parsed {
        Ok(t) => if t != 0 {
            filed(by_ip, q.ip, (q.url, t))
        } else {
            by_ip
        },
        Err(_) => by_ip,
    }
}

/// The page request in the groups of a match, with its time.
pub open spec fn page_request_in(g: Seq<Option<Seq<char>>>) -> Option<(RequestText, Seq<char>)> {
    match (request_in(g, true), group_at(g, 2)) {
        (Some(q), Some(time)) => if page_request(q) {
            Some((q, time))
        } else {
            None
        },
        _ => None,
    }
}

/// The page request in a line, with its time.
pub open spec fn page_request_in_line(line: Seq<char>) -> Option<(RequestText, Seq<char>)> {
    match regex_groups(TIMED_PATTERN@, line) {
        Some(g) => page_request_in(g),
        None => None,
    }
}

/// The addresses with their page requests, after one more line.
pub open spec fn with_line(by_ip: Seq<(Seq<char>, Seq<Event>)>, line: Seq<char>) -> Seq<
    (Seq<char>, Seq<Event>),
> {
    match page_request_in_line(line) {
        Some((q, time)) => with_request(by_ip, q, time_millis(time, TIME_FORMAT@)),
        None => by_ip,
    }
}

/// A page request with its time, as texts.
pub open spec fn page_request_view(r: Option<(Request, String)>) -> Option<
    (RequestText, Seq<char>),
> {
    match r {
        Some((q, time)) => Some((q@, time@)),
        None => None,
    }
}

/// The page request in the groups of a match, with its time.
pub fn page_request_from_groups(g: &Vec<Option<String>>) -> (r: Option<(Request, String)>)
    ensures
        page_request_view(r) == page_request_in(groups_seq(g@)),
{
    match (request_from_groups(g, true), group(g, 2)) {
        (Some(q), Some(time)) => if is_page_request(&q) {
            Some((q, time))
        } else {
            None
        },
        _ => None,
    }
}

/// Files a page request under its address. All requests together must be countable in a machine
/// word.
pub fn file_request(log: &mut VisitLog, q: &Request, parsed: Result<i64, TimeError>)
    requires
        old(log).wf(),
        item_count(old(log).visits()) < usize::MAX,
    ensures
        final(log).wf(),
        final(log).visits() == with_request(old(log).visits(), q@, parsed),
{
    match parsed {
        Ok(created_at) => {
            if created_at != 0 {
                log.file(q.ip.as_str(), WebEvent { url_path: q.url.clone(), created_at });
            }
        },
        Err(_) => {},
    }
}

/// Reads a line of the access log. Where it is a page request whose time cannot be read, the time
/// is handed back.
pub fn read_line(log: &mut VisitLog, format: &Matcher, line: &str) -> (r: Option<BadTime>)
    requires
        old(log).wf(),
        item_count(old(log).visits()) < usize::MAX,
        format.pattern() == TIMED_PATTERN@,
    ensures
        final(log).wf(),
        final(log).visits() == with_line(old(log).visits(), line@),
        match page_request_in_line(line@) {
            Some((q, time)) => match time_millis(time, TIME_FORMAT@) {
                Ok(_) => r is None,
                Err(e) => r matches Some(b) && b.error == e && b.text@ == time,
            },
            None => r is None,
        },
{
    let found = match format.groups(line) {
        Some(g) => page_request_from_groups(&g),
        None => None,
    };
    match found {
        Some((q, time)) => {
            let parsed = read_time(time.as_str(), TIME_FORMAT);
            file_request(log, &q, parsed);
            match parsed {
                Ok(_) => None,
                Err(error) => Some(BadTime { error, text: time }),
            }
        },
        None => None,
    }
}

// ---------------------------------------------------------------------------
// Visits
// ---------------------------------------------------------------------------

/// The number of the visit that event `i` of an address belongs to, counted from 0: how often the
/// address was idle for too long until then.
pub open spec fn visit_number(s: Seq<Event>, i: int) -> nat
    decreases i,
{
    if i <= 0 {
        0
    } else {
        visit_number(s, i - 1) + if s[i].1 - s[i - 1].1 >= SESSION_GAP_MS {
            1nat
        } else {
            0nat
        }
    }
}

/// The name of a visit: the address and the number of the visit.
pub open spec fn visit_name(ip: Seq<char>, n: nat) -> Seq<char> {
    ip + "#"@ + decimal(n)
}

/// The events of an address, in the order of their times, each with the name of its visit.
pub open spec fn named_events(ip: Seq<char>, s: Seq<Event>) -> Seq<(Seq<char>, Event)> {
    Seq::new(s.len(), |i: int| (visit_name(ip, visit_number(s, i)), s[i]))
}

/// The events of all addresses, each with the name of its visit.
pub open spec fn all_named_events(by_ip: Seq<(Seq<char>, Seq<Event>)>) -> Seq<(Seq<char>, Event)>
    decreases by_ip.len(),
{
    if by_ip.len() == 0 {
        Seq::empty()
    } else {
        all_named_events(by_ip.drop_last()) + named_events(
            by_ip.last().0,
            timeline(by_ip.last().1),
        )
    }
}

/// The visits of all addresses.
pub open spec fn visits_of(by_ip: Seq<(Seq<char>, Seq<Event>)>) -> Seq<(Seq<char>, Seq<Event>)> {
    filed_all(all_named_events(by_ip))
}

proof fn lemma_named_len(by_ip: Seq<(Seq<char>, Seq<Event>)>)
    ensures
        all_named_events(by_ip).len() == item_count(by_ip),
    decreases by_ip.len(),
{
    if by_ip.len() > 0 {
        lemma_named_len(by_ip.drop_last());
        lemma_timeline(by_ip.last().1);
    }
}

proof fn lemma_count_take(by_ip: Seq<(Seq<char>, Seq<Event>)>, i: int)
    requires
        0 <= i <= by_ip.len(),
    ensures
        item_count(by_ip.take(i)) <= item_count(by_ip),
    decreases by_ip.len() - i,
{
    if i < by_ip.len() {
        lemma_count_take(by_ip, i + 1);
        assert(by_ip.take(i + 1).drop_last() == by_ip.take(i));
    } else {
        assert(by_ip.take(i) == by_ip);
    }
}

/// Files the events of one address under its visits.
fn file_visits(visits: &mut VisitLog, ip: &str, events: &Vec<WebEvent>)
    requires
        old(visits).wf(),
        item_count(old(visits).visits()) + events@.len() <= usize::MAX,
    ensures
        final(visits).wf(),
        final(visits).visits() == filed_onto(
            old(visits).visits(),
            named_events(ip@, event_views(events@)),
        ),
{
    let ghost s = event_views(events@);
    let ghost named = named_events(ip@, s);
    let ghost start = visits.visits();
    let mut number: usize = 0;
    let mut i: usize = 0;
    let n = events.len();
    assert(named.take(0) == Seq::<(Seq<char>, Event)>::empty());
    while i < n
        invariant
            s == event_views(events@),
            n == events@.len(),
            n == s.len(),
            named == named_events(ip@, s),
            i <= n,
            number <= i,
            i > 0 ==> number == visit_number(s, i - 1),
            i == 0 ==> number == 0,
            visits.wf(),
            item_count(start) + n <= usize::MAX,
            visits.visits() == filed_onto(start, named.take(i as int)),
        decreases n - i,
    {
        proof {
            assert(s[i as int] == events@[i as int]@);
            law_filed_onto_count(start, named.take(i as int));
            assert(named.take(i + 1).drop_last() == named.take(i as int));
            assert(named.take(i + 1).last() == named[i as int]);
        }
        if i > 0 {
            assert(s[i - 1] == events@[i - 1]@);
            let idle = events[i].created_at as i128 - events[i - 1].created_at as i128;
            if idle >= SESSION_GAP_MS as i128 {
                number = number + 1;
            }
        }
        let mut visit_id = append(ip, "#");
        visit_id.append(to_decimal(number as u64).as_str());
        assert(visit_id@ == visit_name(ip@, visit_number(s, i as int)));
        visits.file(
            visit_id.as_str(),
            WebEvent { url_path: events[i].url_path.clone(), created_at: events[i].created_at },
        );
        i += 1;
    }
    assert(named.take(i as int) == named);
}

/// The visits of all addresses.
pub fn split_visits(log: &VisitLog) -> (r: VisitLog)
    requires
        log.wf(),
    ensures
        r.wf(),
        r.visits() == visits_of(log.visits()),
{
    let ghost by_ip = log.visits();
    proof {
        log.lemma_countable();
    }
    let mut r = VisitLog::new();
    let mut i: usize = 0;
    let n = log.len();
    assert(by_ip.take(0) == Seq::<(Seq<char>, Seq<Event>)>::empty());
    while i < n
        invariant
            log.wf(),
            by_ip == log.visits(),
            item_count(by_ip) <= usize::MAX,
            n == by_ip.len(),
            i <= n,
            r.wf(),
            r.visits() == filed_all(all_named_events(by_ip.take(i as int))),
        decreases n - i,
    {
        let ordered = in_time_order(log.events(i));
        proof {
            lemma_timeline(by_ip[i as int].1);
            assert(by_ip.take(i + 1).drop_last() == by_ip.take(i as int));
            assert(by_ip.take(i + 1).last() == by_ip[i as int]);
            lemma_event_count(by_ip.take(i as int));
            lemma_count_take(by_ip, i + 1);
            lemma_filed_split(
                all_named_events(by_ip.take(i as int)),
                named_events(by_ip[i as int].0, timeline(by_ip[i as int].1)),
            );
        }
        file_visits(&mut r, log.visit_id(i).as_str(), &ordered);
        i += 1;
    }
    assert(by_ip.take(i as int) == by_ip);
    r
}

// ---------------------------------------------------------------------------
// Laws
// ---------------------------------------------------------------------------

/// The name is that of a visit of the address.
pub open spec fn is_visit_of(name: Seq<char>, ip: Seq<char>) -> bool {
    exists|n: nat| name == #[trigger] visit_name(ip, n)
}

/// The events in all visits of an address, one visit after the other.
pub open spec fn events_of(visits: Seq<(Seq<char>, Seq<Event>)>, ip: Seq<char>) -> Seq<Event>
    decreases visits.len(),
{
    if visits.len() == 0 {
        Seq::empty()
    } else {
        let rest = events_of(visits.drop_last(), ip);
        if is_visit_of(visits.last().0, ip) {
            rest + visits.last().1
        } else {
            rest
        }
    }
}

/// The events that are named after a visit of an address.
spec fn named_for(named: Seq<(Seq<char>, Event)>, ip: Seq<char>) -> Seq<Event>
    decreases named.len(),
{
    if named.len() == 0 {
        Seq::empty()
    } else {
        let rest = named_for(named.drop_last(), ip);
        if is_visit_of(named.last().0, ip) {
            rest.push(named.last().1)
        } else {
            rest
        }
    }
}

proof fn lemma_event_count(by_ip: Seq<(Seq<char>, Seq<Event>)>)
    ensures
        item_count(visits_of(by_ip)) == item_count(by_ip),
{
    let none = Seq::<(Seq<char>, Seq<Event>)>::empty();
    let named = all_named_events(by_ip);
    lemma_named_len(by_ip);
    lemma_filed_split(Seq::<(Seq<char>, Event)>::empty(), named);
    assert(Seq::<(Seq<char>, Event)>::empty() + named == named);
    law_filed_onto_count(none, named);
}

proof fn lemma_longer_visit(
    visits: Seq<(Seq<char>, Seq<Event>)>,
    i: int,
    event: Event,
    ip: Seq<char>,
)
    requires
        0 <= i < visits.len(),
    ensures
        ({
            let longer = visits.update(i, (visits[i].0, visits[i].1.push(event)));
            events_of(longer, ip).to_multiset() == if is_visit_of(visits[i].0, ip) {
                events_of(visits, ip).to_multiset().insert(event)
            } else {
                events_of(visits, ip).to_multiset()
            }
        }),
    decreases visits.len(),
{
    broadcast use vstd::seq_lib::group_to_multiset_ensures;

    let longer = visits.update(i, (visits[i].0, visits[i].1.push(event)));
    let rest = visits.drop_last();
    if i == visits.len() - 1 {
        assert(longer.drop_last() == rest);
        let before = events_of(rest, ip);
        assert(before + visits[i].1.push(event) == (before + visits[i].1).push(event));
    } else {
        lemma_longer_visit(rest, i, event, ip);
        assert(longer.drop_last() == rest.update(i, (rest[i].0, rest[i].1.push(event))));
        assert(longer.last() == visits.last());
        lemma_multiset_commutative(events_of(rest, ip), visits.last().1);
        lemma_multiset_commutative(events_of(longer.drop_last(), ip), visits.last().1);
        assert(events_of(longer, ip).to_multiset() =~= if is_visit_of(visits[i].0, ip) {
            events_of(visits, ip).to_multiset().insert(event)
        } else {
            events_of(visits, ip).to_multiset()
        });
    }
}

proof fn lemma_filed_events(named: Seq<(Seq<char>, Event)>, ip: Seq<char>)
    ensures
        events_of(filed_all(named), ip).to_multiset() == named_for(named, ip).to_multiset(),
    decreases named.len(),
{
    broadcast use vstd::seq_lib::group_to_multiset_ensures;

    if named.len() > 0 {
        let rest = named.drop_last();
        let visits = filed_all(rest);
        let (key, event) = named.last();
        lemma_filed_events(rest, ip);
        if has_key(visits, key) {
            let i = spot(visits, key);
            assert(is_at(visits, key, i));
            lemma_longer_visit(visits, i, event, ip);
        } else {
            let longer = visits.push((key, seq![event]));
            assert(longer.drop_last() == visits);
            assert(events_of(visits, ip) + seq![event] == events_of(visits, ip).push(event));
        }
    }
}

proof fn lemma_named_append(
    a: Seq<(Seq<char>, Event)>,
    b: Seq<(Seq<char>, Event)>,
    ip: Seq<char>,
)
    ensures
        named_for(a + b, ip) == named_for(a, ip) + named_for(b, ip),
    decreases b.len(),
{
    if b.len() == 0 {
        assert(a + b == a);
        assert(named_for(a, ip) + named_for(b, ip) == named_for(a, ip));
    } else {
        lemma_named_append(a, b.drop_last(), ip);
        assert((a + b).drop_last() == a + b.drop_last());
        assert((a + b).last() == b.last());
        assert(named_for(a + b, ip) == named_for(a, ip) + named_for(b, ip));
    }
}

proof fn lemma_visit_owner(owner: Seq<char>, n: nat, ip: Seq<char>)
    ensures
        is_visit_of(visit_name(owner, n), ip) <==> owner == ip,
{
    if is_visit_of(visit_name(owner, n), ip) {
        let m = choose|m: nat| visit_name(owner, n) == #[trigger] visit_name(ip, m);
        law_visit_names_distinct(owner, n, ip, m);
    }
}

proof fn lemma_named_for_one(owner: Seq<char>, s: Seq<Event>, ip: Seq<char>, m: int)
    requires
        0 <= m <= s.len(),
    ensures
        named_for(named_events(owner, s).take(m), ip) == if owner == ip {
            s.take(m)
        } else {
            Seq::empty()
        },
    decreases m,
{
    let named = named_events(owner, s);
    if m > 0 {
        lemma_named_for_one(owner, s, ip, m - 1);
        assert(named.take(m).drop_last() == named.take(m - 1));
        assert(named.take(m).last() == named[m - 1]);
        lemma_visit_owner(owner, visit_number(s, m - 1), ip);
        assert(s.take(m) == s.take(m - 1).push(s[m - 1]));
    }
}

/// The events of an address, none where it has no entry.
pub open spec fn entry_of(by_ip: Seq<(Seq<char>, Seq<Event>)>, ip: Seq<char>) -> Seq<Event> {
    if has_key(by_ip, ip) {
        by_ip[spot(by_ip, ip)].1
    } else {
        Seq::empty()
    }
}

proof fn lemma_named_for_all(by_ip: Seq<(Seq<char>, Seq<Event>)>, ip: Seq<char>)
    requires
        distinct(by_ip),
    ensures
        named_for(all_named_events(by_ip), ip).to_multiset() == entry_of(by_ip, ip).to_multiset(),
        !has_key(by_ip, ip) ==> named_for(all_named_events(by_ip), ip).len() == 0,
    decreases by_ip.len(),
{
    if by_ip.len() > 0 {
        let rest = by_ip.drop_last();
        let (owner, events) = by_ip.last();
        let s = timeline(events);
        let named = named_events(owner, s);
        assert(distinct(rest)) by {
            assert forall|i: int, j: int| 0 <= i < j < rest.len() implies (#[trigger] rest[i]).0
                != (#[trigger] rest[j]).0 by {
                assert(by_ip[i].0 != by_ip[j].0);
            }
        }
        lemma_named_for_all(rest, ip);
        lemma_named_append(all_named_events(rest), named, ip);
        lemma_named_for_one(owner, s, ip, s.len() as int);
        assert(named.take(s.len() as int) == named);
        assert(s.take(s.len() as int) == s);
        let (a, b) = (named_for(all_named_events(rest), ip), named_for(named, ip));
        if owner == ip {
            let last = by_ip.len() - 1;
            assert(is_at(by_ip, ip, last));
            lemma_spot(by_ip, ip, last);
            if has_key(rest, ip) {
                let i = spot(rest, ip);
                assert(is_at(rest, ip, i));
                assert(by_ip[i].0 != by_ip[last].0);
            }
            assert(a + b == s);
            law_sorted_keeps_values(events, time_order());
        } else {
            assert(a + b == a);
            if has_key(rest, ip) {
                let i = spot(rest, ip);
                assert(is_at(rest, ip, i));
                assert(is_at(by_ip, ip, i));
                lemma_spot(by_ip, ip, i);
            }
            if has_key(by_ip, ip) {
                let i = spot(by_ip, ip);
                assert(is_at(by_ip, ip, i));
                assert(is_at(rest, ip, i));
            }
        }
    }
}

/// Cutting the events of the addresses into visits loses none and makes none: the visits of an
/// address have together the events of its entry, and an address without an entry has no events.
pub proof fn law_no_event_lost(by_ip: Seq<(Seq<char>, Seq<Event>)>, ip: Seq<char>)
    requires
        distinct(by_ip),
    ensures
        events_of(visits_of(by_ip), ip).to_multiset() == entry_of(by_ip, ip).to_multiset(),
        item_count(visits_of(by_ip)) == item_count(by_ip),
{
    lemma_named_for_all(by_ip, ip);
    lemma_filed_events(all_named_events(by_ip), ip);
    lemma_event_count(by_ip);
}

/// Every visit is a visit of an address that has an entry.
pub proof fn law_visits_owned(by_ip: Seq<(Seq<char>, Seq<Event>)>, k: int)
    requires
        0 <= k < visits_of(by_ip).len(),
    ensures
        exists|i: int|
            0 <= i < by_ip.len() && #[trigger] is_visit_of(visits_of(by_ip)[k].0, by_ip[i].0),
{
    let visits = visits_of(by_ip);
    let named = all_named_events(by_ip);
    let key = visits[k].0;
    law_filed_lists(named, key);
    assert(is_at(visits, key, k));
    lemma_spot(visits, key, k);
    let i = lemma_item_source(named, key);
    let (j, n) = lemma_name_source(by_ip, i);
    assert(visits[k].0 == visit_name(by_ip[j].0, n));
    assert(is_visit_of(visits_of(by_ip)[k].0, by_ip[j].0));
}

/// The next event of an address belongs to the same visit exactly when the address was not idle for
/// too long; else it begins the next one.
pub proof fn law_visit_cut(s: Seq<Event>, i: int)
    requires
        0 <= i < s.len() - 1,
    ensures
        s[i + 1].1 - s[i].1 < SESSION_GAP_MS ==> visit_number(s, i + 1) == visit_number(s, i),
        s[i + 1].1 - s[i].1 >= SESSION_GAP_MS ==> visit_number(s, i + 1) == visit_number(s, i) + 1,
{
}

/// Different visits have different names.
pub proof fn law_visit_names_distinct(ip: Seq<char>, n: nat, other: Seq<char>, m: nat)
    requires
        visit_name(ip, n) == visit_name(other, m),
    ensures
        ip == other,
        n == m,
{
    reveal_strlit("#");
    let a = visit_name(ip, n);
    let b = visit_name(other, m);
    law_decimal_value(n);
    law_decimal_value(m);
    let (x, y) = (decimal(n), decimal(m));
    assert(a.len() == ip.len() + 1 + x.len());
    assert(b.len() == other.len() + 1 + y.len());
    if x.len() < y.len() {
        assert(a[ip.len() as int] == '#');
        assert(b[ip.len() as int] == y[ip.len() - other.len() - 1]);
        assert(is_digit(y[ip.len() - other.len() - 1]));
    } else if y.len() < x.len() {
        assert(b[other.len() as int] == '#');
        assert(a[other.len() as int] == x[other.len() - ip.len() - 1]);
        assert(is_digit(x[other.len() - ip.len() - 1]));
    }
    assert(ip.len() == other.len());
    assert(ip == a.take(ip.len() as int));
    assert(other == b.take(ip.len() as int));
    assert(x == a.skip((ip.len() + 1) as int));
    assert(y == b.skip((ip.len() + 1) as int));
    law_decimal_injective(n, m);
}

/// Each event comes after the one ahead of it, and not too long after.
pub open spec fn unbroken(s: Seq<Event>) -> bool {
    forall|a: int, b: int|
        0 <= a < s.len() - 1 && b == a + 1 ==> 0 <= (#[trigger] s[b]).1 - (#[trigger] s[a]).1
            < SESSION_GAP_MS
}

proof fn lemma_numbers_grow(s: Seq<Event>, i: int, j: int)
    requires
        0 <= i <= j < s.len(),
    ensures
        visit_number(s, i) <= visit_number(s, j),
    decreases j - i,
{
    if i < j {
        lemma_numbers_grow(s, i, j - 1);
    }
}

proof fn lemma_unbroken_part(ip: Seq<char>, s: Seq<Event>, n: nat, m: int)
    requires
        in_order(s, time_order()),
        0 <= m <= s.len(),
    ensures
        ({
            let part = items_under(named_events(ip, s).take(m), visit_name(ip, n));
            &&& unbroken(part)
            &&& m > 0 && visit_number(s, m - 1) == n ==> part.len() > 0 && part.last() == s[m - 1]
            &&& m > 0 && visit_number(s, m - 1) < n ==> part.len() == 0
            &&& m == 0 ==> part.len() == 0
        }),
    decreases m,
{
    let named = named_events(ip, s);
    let key = visit_name(ip, n);
    if m > 0 {
        lemma_unbroken_part(ip, s, n, m - 1);
        assert(named.take(m).drop_last() == named.take(m - 1));
        assert(named.take(m).last() == named[m - 1]);
        let part = items_under(named.take(m), key);
        let rest = items_under(named.take(m - 1), key);
        if visit_number(s, m - 1) == n {
            assert(part == rest.push(s[m - 1]));
            if m > 1 {
                lemma_numbers_grow(s, m - 2, m - 1);
                let le = time_order();
                assert(le(s[m - 2], s[m - 1]));
            }
            assert forall|a: int, b: int| 0 <= a < part.len() - 1 && b == a + 1 implies 0 <= (
            #[trigger] part[b]).1 - (#[trigger] part[a]).1 < SESSION_GAP_MS by {
                if b < rest.len() {
                    assert(rest[a] == part[a] && rest[b] == part[b]);
                } else {
                    assert(m > 1);
                    assert(part[a] == rest.last());
                }
            }
        } else {
            if named[m - 1].0 == key {
                law_visit_names_distinct(ip, visit_number(s, m - 1), ip, n);
            }
            assert(part == rest);
            if m > 1 {
                lemma_numbers_grow(s, m - 2, m - 1);
            }
        }
    }
}

proof fn lemma_items_append(
    a: Seq<(Seq<char>, Event)>,
    b: Seq<(Seq<char>, Event)>,
    key: Seq<char>,
)
    ensures
        items_under(a + b, key) == items_under(a, key) + items_under(b, key),
    decreases b.len(),
{
    if b.len() == 0 {
        assert(a + b == a);
    } else {
        lemma_items_append(a, b.drop_last(), key);
        assert((a + b).drop_last() == a + b.drop_last());
        assert((a + b).last() == b.last());
    }
}

proof fn lemma_no_items(s: Seq<(Seq<char>, Event)>, key: Seq<char>)
    requires
        forall|i: int| 0 <= i < s.len() ==> (#[trigger] s[i]).0 != key,
    ensures
        items_under(s, key).len() == 0,
    decreases s.len(),
{
    if s.len() > 0 {
        let rest = s.drop_last();
        assert forall|i: int| 0 <= i < rest.len() implies (#[trigger] rest[i]).0 != key by {
            assert(rest[i] == s[i]);
        }
        lemma_no_items(rest, key);
        assert(s[s.len() - 1].0 != key);
    }
}

proof fn lemma_unbroken_all(by_ip: Seq<(Seq<char>, Seq<Event>)>, ip: Seq<char>, n: nat)
    requires
        distinct(by_ip),
    ensures
        unbroken(items_under(all_named_events(by_ip), visit_name(ip, n))),
        !has_key(by_ip, ip) ==> items_under(all_named_events(by_ip), visit_name(ip, n)).len() == 0,
    decreases by_ip.len(),
{
    if by_ip.len() > 0 {
        let key = visit_name(ip, n);
        let rest = by_ip.drop_last();
        let (last_ip, events) = by_ip.last();
        let named = named_events(last_ip, timeline(events));
        assert(distinct(rest)) by {
            assert forall|i: int, j: int| 0 <= i < j < rest.len() implies (#[trigger] rest[i]).0
                != (#[trigger] rest[j]).0 by {
                assert(by_ip[i].0 != by_ip[j].0);
            }
        }
        lemma_unbroken_all(rest, ip, n);
        lemma_items_append(all_named_events(rest), named, key);
        let (a, b) = (items_under(all_named_events(rest), key), items_under(named, key));
        if last_ip == ip {
            assert(is_at(by_ip, ip, by_ip.len() - 1));
            if has_key(rest, ip) {
                let i = spot(rest, ip);
                assert(is_at(rest, ip, i));
                assert(by_ip[i].0 != by_ip[by_ip.len() - 1].0);
            }
            lemma_timeline(events);
            lemma_unbroken_part(ip, timeline(events), n, timeline(events).len() as int);
            assert(named.take(named.len() as int) == named);
            assert(a + b == b);
        } else {
            assert forall|i: int| 0 <= i < named.len() implies (#[trigger] named[i]).0 != key by {
                if named[i].0 == key {
                    law_visit_names_distinct(last_ip, visit_number(timeline(events), i), ip, n);
                }
            }
            lemma_no_items(named, key);
            assert(a + b == a);
            if has_key(rest, ip) {
                let i = spot(rest, ip);
                assert(is_at(rest, ip, i));
                assert(is_at(by_ip, ip, i));
            }
        }
    }
}

proof fn lemma_item_source(s: Seq<(Seq<char>, Event)>, key: Seq<char>) -> (i: int)
    requires
        items_under(s, key).len() > 0,
    ensures
        0 <= i < s.len(),
        s[i].0 == key,
    decreases s.len(),
{
    if s.last().0 == key {
        s.len() - 1
    } else {
        lemma_item_source(s.drop_last(), key)
    }
}

proof fn lemma_name_source(by_ip: Seq<(Seq<char>, Seq<Event>)>, i: int) -> (r: (int, nat))
    requires
        0 <= i < all_named_events(by_ip).len(),
    ensures
        0 <= r.0 < by_ip.len(),
        all_named_events(by_ip)[i].0 == visit_name(by_ip[r.0].0, r.1),
    decreases by_ip.len(),
{
    let rest = all_named_events(by_ip.drop_last());
    if i < rest.len() {
        lemma_name_source(by_ip.drop_last(), i)
    } else {
        let s = timeline(by_ip.last().1);
        (by_ip.len() - 1, visit_number(s, i - rest.len()))
    }
}

/// Within a visit every event comes less than half an hour after the one ahead of it, and none
/// before it.
pub proof fn law_visits_unbroken(by_ip: Seq<(Seq<char>, Seq<Event>)>, k: int)
    requires
        distinct(by_ip),
        0 <= k < visits_of(by_ip).len(),
    ensures
        unbroken(visits_of(by_ip)[k].1),
{
    let visits = visits_of(by_ip);
    let named = all_named_events(by_ip);
    let key = visits[k].0;
    law_filed_lists(named, key);
    assert(is_at(visits, key, k));
    lemma_spot(visits, key, k);
    let i = lemma_item_source(named, key);
    let (j, n) = lemma_name_source(by_ip, i);
    lemma_unbroken_all(by_ip, by_ip[j].0, n);
}

/// The addresses with their page requests, after all lines of an access log were read.
pub open spec fn after_lines(lines: Seq<Seq<char>>) -> Seq<(Seq<char>, Seq<Event>)>
    decreases lines.len(),
{
    if lines.len() == 0 {
        Seq::empty()
    } else {
        with_line(after_lines(lines.drop_last()), lines.last())
    }
}

/// The page requests in the lines of an access log whose times can be read, each with its address.
pub open spec fn requests_in(lines: Seq<Seq<char>>) -> Seq<(Seq<char>, Event)>
    decreases lines.len(),
{
    if lines.len() == 0 {
        Seq::empty()
    } else {
        let rest = requests_in(lines.drop_last());
        match page_request_in_line(lines.last()) {
            Some((q, time)) => match time_millis(time, TIME_FORMAT@) {
                Ok(t) => if t != 0 {
                    rest.push((q.ip, (q.url, t)))
                } else {
                    rest
                },
                Err(_) => rest,
            },
            None => rest,
        }
    }
}

/// After all lines were read, there is an entry for exactly the addresses that came, and it has the
/// page requests of its address, in the order of the lines.
pub proof fn law_addresses_hold_their_requests(lines: Seq<Seq<char>>, ip: Seq<char>)
    ensures
        distinct(after_lines(lines)),
        after_lines(lines) == filed_all(requests_in(lines)),
        has_key(after_lines(lines), ip) <==> items_under(requests_in(lines), ip).len() > 0,
        has_key(after_lines(lines), ip) ==> after_lines(lines)[spot(after_lines(lines), ip)].1
            == items_under(requests_in(lines), ip),
{
    lemma_lines_filed(lines);
    law_filed_lists(requests_in(lines), ip);
}

proof fn lemma_lines_filed(lines: Seq<Seq<char>>)
    ensures
        after_lines(lines) == filed_all(requests_in(lines)),
    decreases lines.len(),
{
    if lines.len() > 0 {
        lemma_lines_filed(lines.drop_last());
        let rest = requests_in(lines.drop_last());
        if requests_in(lines) != rest {
            assert(requests_in(lines).drop_last() == rest);
        }
    }
}

/// A request that is refused, comes from a bot or from within, or is for another host or for a
/// resource of a page, plays no part.
pub proof fn law_other_requests_ignored(
    by_ip: Seq<(Seq<char>, Seq<Event>)>,
    line: Seq<char>,
    g: Seq<Option<Seq<char>>>,
)
    requires
        regex_groups(TIMED_PATTERN@, line) == Some(g),
        request_in(g, true) matches Some(q) && !page_request(q),
    ensures
        with_line(by_ip, line) == by_ip,
{
}

/// A user agent is that of a bot or of the uptime monitor wherever in it the word or the name
/// stands, and no other user agent is.
pub proof fn law_automatic_agents_told(a: Seq<char>, b: Seq<char>, agent: Seq<char>)
    ensures
        automatic_agent(a + "uptime-kuma"@ + b),
        automatic_agent(a + "googlebot"@ + b),
        automatic_agent(a + "bot"@ + b),
        !has_text(agent, "uptime-kuma"@) && !has_text(agent, "bot"@) ==> !automatic_agent(agent),
{
    law_text_found(a, "uptime-kuma"@, b);
    law_text_found(a, "googlebot"@, b);
    law_text_found(a, "bot"@, b);
    if has_text(agent, "googlebot"@) {
        let (x, y) = law_found_text_parts(agent, "googlebot"@);
        reveal_strlit("googlebot");
        reveal_strlit("bot");
        let front = x + "googlebot"@.take(6);
        assert("googlebot"@ == "googlebot"@.take(6) + "bot"@);
        assert(agent == front + "bot"@ + y);
        law_text_found(front, "bot"@, y);
    }
}

/// A request is for a page and was granted exactly when it is for the site or its API, comes neither
/// from a bot nor from within, was answered below 400, and is for no page resource.
pub proof fn law_page_requests_told(q: RequestText, status: nat)
    requires
        q.status == decimal(status),
        status <= u32::MAX,
    ensures
        page_request(q) <==> (q.host == "cmsn.info"@ || q.host == "api.cmsn.info"@)
            && !automatic_agent(lowercase(q.user_agent)) && !internal_ip(q.ip) && status < 400
            && !static_resource(lowercase(q.url)),
{
    law_unsigned_exact(status, u32::MAX as nat);
}

/// A page request is filed under its address with its path and its time; one whose time cannot be
/// read, or reads as the start of 1970, is left out.
pub proof fn law_request_filed(
    by_ip: Seq<(Seq<char>, Seq<Event>)>,
    q: RequestText,
    time: i64,
    error: TimeError,
)
    ensures
        time != 0 ==> with_request(by_ip, q, Ok(time)) == filed(by_ip, q.ip, (q.url, time)),
        with_request(by_ip, q, Ok(0i64)) == by_ip,
        with_request(by_ip, q, Err(error)) == by_ip,
{
}

/// The events of an address are in one visit exactly as long as none comes half an hour or more
/// after the one ahead of it.
pub proof fn law_half_hour_cuts(s: Seq<Event>, i: int)
    requires
        0 < i < s.len(),
    ensures
        visit_number(s, 0) == 0,
        s[i].1 - s[i - 1].1 < 30 * 60 * 1000 ==> visit_number(s, i) == visit_number(s, i - 1),
        s[i].1 - s[i - 1].1 >= 30 * 60 * 1000 ==> visit_number(s, i) == visit_number(s, i - 1) + 1,
{
}

/// The path that a request is told by: what is before the query, without blanks and quotes.
pub open spec fn is_asked_path(path: Seq<char>, p: Seq<char>, query: Seq<char>) -> bool {
    !p.contains('?') && (bare_path(path) == p || bare_path(path) == p.push('?') + query)
}

proof fn lemma_asked_path(path: Seq<char>, p: Seq<char>, query: Seq<char>)
    requires
        is_asked_path(path, p, query),
    ensures
        pieces(bare_path(path), '?')[0] == p,
{
    law_whole_piece(p, '?');
    law_pieces_cut(p, '?', query);
}

/// The path is that of a list.
pub open spec fn has_list_mark(p: Seq<char>) -> bool {
    p == "/"@ || p.len() == 0 || has_text(p, "/api/items"@) || has_text(p, "/items/list"@)
        || has_text(p, "/t"@)
}

/// The category of a request is told by what is before its query alone: a list by the root, nothing
/// or one of its marks; else a search by one of its marks; else an entry by one of its marks; any
/// other has none.
pub proof fn law_requests_categorized(path: Seq<char>, p: Seq<char>, query: Seq<char>)
    requires
        is_asked_path(path, p, query),
    ensures
        has_list_mark(p) ==> category_of(path) == "[List]"@,
        !has_list_mark(p) && (has_text(p, "/search"@) || has_text(p, "/category"@)) ==> category_of(
            path,
        ) == "[Search]"@,
        !has_list_mark(p) && !has_text(p, "/search"@) && !has_text(p, "/category"@) && (has_text(
            p,
            "/i/"@,
        ) || has_text(p, "/post"@)) ==> category_of(path) == "[Detail]"@,
        !has_list_mark(p) && !has_text(p, "/search"@) && !has_text(p, "/category"@) && !has_text(
            p,
            "/i/"@,
        ) && !has_text(p, "/post"@) ==> category_of(path).len() == 0,
{
    lemma_asked_path(path, p, query);
    reveal_strlit("");
}

/// Two requests that differ in their queries only have the same category.
pub proof fn law_query_ignored(
    path: Seq<char>,
    other: Seq<char>,
    p: Seq<char>,
    a: Seq<char>,
    b: Seq<char>,
)
    requires
        is_asked_path(path, p, a),
        is_asked_path(other, p, b),
    ensures
        category_of(path) == category_of(other),
{
    lemma_asked_path(path, p, a);
    lemma_asked_path(other, p, b);
}

/// Every visit of thirty or more events with two or more of a category is followed, and no other.
pub proof fn law_thirty_events_followed(visit_id: Seq<char>, events: Seq<Event>)
    ensures
        trace_of::<Requests>(visit_id, events, MIN_EVENTS as nat) is Some <==> events.len() >= 30
            && timeline(events).map_values(|e: Event| category_of(e.0)).filter(
            |c: Seq<char>| c.len() > 0,
        ).len() >= 2,
{
    law_trace_exact::<Requests>(visit_id, events, MIN_EVENTS as nat);
    assert(timeline(events).map_values(|e: Event| category_of(e.0)) == timeline(events).map_values(
        |e: Event| Requests::category(e.0),
    ));
}

/// A status that is no number does not speak against a request.
pub proof fn law_other_status_granted(status: Seq<char>, i: int)
    requires
        status.len() == 0 || (0 <= i < status.len() && !is_digit(status[i]) && (i > 0 || (status[0]
            != '+' && status[0] != '-'))),
    ensures
        response_code(status) == 0,
{
    law_other_text_refused(status, i, u32::MAX as nat);
}

/// The page request in a match is the request in it, with the time behind the address, where it is
/// for a page and was granted; there is none where it is not, or where a group is missing.
pub proof fn law_page_request_of_match(
    whole: Option<Seq<char>>,
    time: Seq<char>,
    q: RequestText,
    g: Seq<Option<Seq<char>>>,
    i: int,
)
    requires
        1 <= i <= 7,
    ensures
        ({
            let found = seq![
                whole,
                Some(q.ip),
                Some(time),
                Some(q.method),
                Some(q.url),
                Some(q.status),
                Some(q.user_agent),
                Some(q.host),
            ];
            &&& page_request(q) ==> page_request_in(found) == Some((q, time))
            &&& !page_request(q) ==> page_request_in(found) is None
        }),
        g.len() <= i || g[i] is None ==> page_request_in(g) is None,
{
}

/// The events of an address from which its visit `n` is made, in the order of their times.
pub open spec fn events_numbered(s: Seq<Event>, n: nat) -> Seq<Event> {
    Seq::new(s.len(), |i: int| i).filter(|i: int| visit_number(s, i) == n).map_values(
        |i: int| s[i],
    )
}

proof fn lemma_events_numbered(ip: Seq<char>, s: Seq<Event>, n: nat, m: int)
    requires
        0 <= m <= s.len(),
    ensures
        items_under(named_events(ip, s).take(m), visit_name(ip, n)) == Seq::new(
            m as nat,
            |i: int| i,
        ).filter(|i: int| visit_number(s, i) == n).map_values(|i: int| s[i]),
    decreases m,
{
    reveal(Seq::filter);
    let named = named_events(ip, s);
    let all = Seq::new(m as nat, |i: int| i);
    let mine = |i: int| visit_number(s, i) == n;
    let event = |i: int| s[i];
    if m > 0 {
        lemma_events_numbered(ip, s, n, m - 1);
        let rest = Seq::new((m - 1) as nat, |i: int| i);
        assert(all.drop_last() == rest);
        assert(named.take(m).drop_last() == named.take(m - 1));
        assert(named.take(m).last() == named[m - 1]);
        if visit_number(s, m - 1) == n {
            assert(all.filter(mine) == rest.filter(mine).push(m - 1));
            assert(all.filter(mine).map_values(event) == rest.filter(mine).map_values(event).push(
                s[m - 1],
            ));
        } else if named[m - 1].0 == visit_name(ip, n) {
            law_visit_names_distinct(ip, visit_number(s, m - 1), ip, n);
        }
    } else {
        assert(items_under(named.take(m), visit_name(ip, n)) == all.filter(mine).map_values(event));
    }
}

/// Visit `n` of an address has exactly the events of the address that come after `n` times of half
/// an hour or more without one, in the order of their times. There is such a visit exactly when
/// there are such events.
pub proof fn law_visit_has_its_events(
    by_ip: Seq<(Seq<char>, Seq<Event>)>,
    ip: Seq<char>,
    n: nat,
)
    requires
        distinct(by_ip),
        has_key(by_ip, ip),
    ensures
        ({
            let mine = events_numbered(timeline(entry_of(by_ip, ip)), n);
            let visits = visits_of(by_ip);
            &&& has_key(visits, visit_name(ip, n)) <==> mine.len() > 0
            &&& has_key(visits, visit_name(ip, n)) ==> visits[spot(visits, visit_name(ip, n))].1
                == mine
        }),
{
    law_filed_lists(all_named_events(by_ip), visit_name(ip, n));
    lemma_items_of_address(by_ip, ip, n);
}

proof fn lemma_items_of_address(by_ip: Seq<(Seq<char>, Seq<Event>)>, ip: Seq<char>, n: nat)
    requires
        distinct(by_ip),
    ensures
        items_under(all_named_events(by_ip), visit_name(ip, n)) == if has_key(by_ip, ip) {
            events_numbered(timeline(entry_of(by_ip, ip)), n)
        } else {
            Seq::empty()
        },
    decreases by_ip.len(),
{
    let key = visit_name(ip, n);
    if by_ip.len() == 0 {
        if has_key(by_ip, ip) {
            assert(is_at(by_ip, ip, spot(by_ip, ip)));
        }
    } else {
        let rest = by_ip.drop_last();
        let (owner, events) = by_ip.last();
        let s = timeline(events);
        let named = named_events(owner, s);
        assert(distinct(rest)) by {
            assert forall|i: int, j: int| 0 <= i < j < rest.len() implies (#[trigger] rest[i]).0
                != (#[trigger] rest[j]).0 by {
                assert(by_ip[i].0 != by_ip[j].0);
            }
        }
        lemma_items_of_address(rest, ip, n);
        lemma_items_append(all_named_events(rest), named, key);
        let (a, b) = (items_under(all_named_events(rest), key), items_under(named, key));
        let last = by_ip.len() - 1;
        if owner == ip {
            assert(is_at(by_ip, ip, last));
            lemma_spot(by_ip, ip, last);
            if has_key(rest, ip) {
                let i = spot(rest, ip);
                assert(is_at(rest, ip, i));
                assert(by_ip[i].0 != by_ip[last].0);
            }
            lemma_events_numbered(ip, s, n, s.len() as int);
            assert(named.take(s.len() as int) == named);
            assert(a + b == b);
        } else {
            assert forall|i: int| 0 <= i < named.len() implies (#[trigger] named[i]).0 != key by {
                if named[i].0 == key {
                    law_visit_names_distinct(owner, visit_number(s, i), ip, n);
                }
            }
            lemma_no_items(named, key);
            assert(a + b == a);
            if has_key(rest, ip) {
                let i = spot(rest, ip);
                assert(is_at(rest, ip, i));
                assert(is_at(by_ip, ip, i));
                lemma_spot(by_ip, ip, i);
            }
            if has_key(by_ip, ip) {
                let i = spot(by_ip, ip);
                assert(is_at(by_ip, ip, i));
                assert(is_at(rest, ip, i));
            }
        }
    }
}

/// A line of the access log that matches as a page request is filed under its address with its path
/// and the time that it states, and left out where the time cannot be read or is the start of 1970.
pub proof fn law_line_filed(
    by_ip: Seq<(Seq<char>, Seq<Event>)>,
    line: Seq<char>,
    g: Seq<Option<Seq<char>>>,
    q: RequestText,
    time: Seq<char>,
)
    requires
        regex_groups(TIMED_PATTERN@, line) == Some(g),
        page_request_in(g) == Some((q, time)),
    ensures
        match time_millis(time, "%d/%b/%Y:%H:%M:%S %z"@) {
            Ok(t) => with_line(by_ip, line) == if t == 0 {
                by_ip
            } else {
                filed(by_ip, q.ip, (q.url, t))
            },
            Err(_) => with_line(by_ip, line) == by_ip,
        },
{
}

/// A line that does not match holds no page request.
pub proof fn law_unmatched_line_ignored(by_ip: Seq<(Seq<char>, Seq<Event>)>, line: Seq<char>)
    requires
        regex_groups(TIMED_PATTERN@, line) is None,
    ensures
        page_request_in_line(line) is None,
        with_line(by_ip, line) == by_ip,
{
}

} // verus!
