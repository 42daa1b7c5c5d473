//! Requests in the access log of the ingress controller, and what they can be told apart by.

use crate::number::{
    decimal, is_digit, law_decimal_injective, law_decimal_value, law_other_text_refused,
    law_signed_exact, law_unsigned_exact, parse_signed, parse_unsigned, signed_value,
    unsigned_value,
};
use crate::pattern::{
    group, group_at, groups_seq, is_pattern, regex_groups, Matcher, PatternError,
};
use crate::text::{
    contains, has_prefix, has_text, law_pieces_cut, law_text_found, law_whole_piece,
    lemma_pieces_nonempty, lowercase, pieces, same_text, split, starts_with, texts,
};
use vstd::prelude::*;

verus! {

// ---------------------------------------------------------------------------
// Lines
// ---------------------------------------------------------------------------

/// A line of the access log that ends in the host name. Groups: address, method, path, status,
/// user agent, host.
pub const REQUEST_PATTERN: &'static str = r#"(?P<ip>\S+) - - \[[^\]]+\] "(?P<method>\S+) (?P<url>\S+) \S+" (?P<status>\d+) \d+ "[^"]*" "(?P<ua>[^"]*)" \d+ \S+ \[[^\]]*\] \[\] .* "(?P<host>[^"]*)"#;

/// The same line with its time as the second group.
pub const TIMED_PATTERN: &'static str = r#"(?P<ip>\S+) - - \[(?P<time>[^\]]+)\] "(?P<method>\S+) (?P<url>\S+) \S+" (?P<status>\d+) \d+ "[^"]*" "(?P<ua>[^"]*)" \d+ \S+ \[[^\]]*\] \[\] .* "(?P<host>[^"]*)"#;

/// One request.
pub struct Request {
    pub ip: String,
    pub method: String,
    pub url: String,
    pub status: String,
    pub user_agent: String,
    pub host: String,
}

/// The texts of a request.
pub struct RequestText {
    pub ip: Seq<char>,
    pub method: Seq<char>,
    pub url: Seq<char>,
    pub status: Seq<char>,
    pub user_agent: Seq<char>,
    pub host: Seq<char>,
}

impl View for Request {
    type V = RequestText;

    open spec fn view(&self) -> RequestText {
        RequestText {
            ip: self.ip@,
            method: self.method@,
            url: self.url@,
            status: self.status@,
            user_agent: self.user_agent@,
            host: self.host@,
        }
    }
}

/// The request in the groups of a match; with `timed` the time stands between the address and
/// the method.
pub open spec fn request_in(g: Seq<Option<Seq<char>>>, timed: bool) -> Option<RequestText> {
    let skip: int = if timed {
        1
    } else {
        0
    };
    match (
        group_at(g, 1),
        group_at(g, 2 + skip),
        group_at(g, 3 + skip),
        group_at(g, 4 + skip),
        group_at(g, 5 + skip),
        group_at(g, 6 + skip),
    ) {
        (Some(ip), Some(method), Some(url), Some(status), Some(user_agent), Some(host)) => Some(
            RequestText { ip, method, url, status, user_agent, host },
        ),
        _ => None,
    }
}

/// The request in a line.
pub open spec fn request_in_line(line: Seq<char>) -> Option<RequestText> {
    match regex_groups(REQUEST_PATTERN@, line) {
        Some(g) => request_in(g, false),
        None => None,
    }
}

/// The view of a request that may be missing.
pub open spec fn request_view(r: Option<Request>) -> Option<RequestText> {
    match r {
        Some(q) => Some(q@),
        None => None,
    }
}

/// The request in the groups of a match.
pub fn request_from_groups(g: &Vec<Option<String>>, timed: bool) -> (r: Option<Request>)
    ensures
        request_view(r) == request_in(groups_seq(g@), timed),
{
    let skip: usize = if timed {
        1
    } else {
        0
    };
    match (
        group(g, 1),
        group(g, 2 + skip),
        group(g, 3 + skip),
        group(g, 4 + skip),
        group(g, 5 + skip),
        group(g, 6 + skip),
    ) {
        (Some(ip), Some(method), Some(url), Some(status), Some(user_agent), Some(host)) => Some(
            Request { ip, method, url, status, user_agent, host },
        ),
        _ => None,
    }
}

/// The pattern of lines with their times, ready for use.
pub fn timed_matcher() -> (r: Result<Matcher, PatternError>)
    ensures
        match r {
            Ok(m) => is_pattern(TIMED_PATTERN@) && m.pattern() == TIMED_PATTERN@,
            Err(_) => !is_pattern(TIMED_PATTERN@),
        },
{
    Matcher::new(TIMED_PATTERN)
}

/// Reads requests from lines.
pub struct RequestFormat {
    matcher: Matcher,
}

impl RequestFormat {
    /// The format matches lines with its own pattern.
    pub closed spec fn wf(self) -> bool {
        self.matcher.pattern() == REQUEST_PATTERN@
    }

    /// The format, ready for use.
    pub fn new() -> (r: Result<RequestFormat, PatternError>)
        ensures
            match r {
                Ok(f) => is_pattern(REQUEST_PATTERN@) && f.wf(),
                Err(_) => !is_pattern(REQUEST_PATTERN@),
            },
    {
        match Matcher::new(REQUEST_PATTERN) {
            Ok(matcher) => Ok(RequestFormat { matcher }),
            Err(e) => Err(e),
        }
    }

    /// The request in a line.
    pub fn parse(&self, line: &str) -> (r: Option<Request>)
        requires
            self.wf(),
        ensures
            request_view(r) == request_in_line(line@),
    {
        match self.matcher.groups(line) {
            Some(g) => request_from_groups(&g, false),
            None => None,
        }
    }
}

// ---------------------------------------------------------------------------
// Traits of a request
// ---------------------------------------------------------------------------

/// The host is that of the site or of its API.
pub open spec fn own_host(host: Seq<char>) -> bool {
    host == "cmsn.info"@ || host == "api.cmsn.info"@
}

/// The host is that of the site or of its API.
pub fn is_own_host(host: &str) -> (r: bool)
    ensures
        r == own_host(host@),
{
    same_text(host, "cmsn.info") || same_text(host, "api.cmsn.info")
}

/// The user agent, in lower case, is that of the uptime monitor or of a welcome search engine.
pub open spec fn monitoring_agent(agent: Seq<char>) -> bool {
    has_text(agent, "uptime-kuma"@) || has_text(agent, "googlebot"@) || has_text(
        agent,
        "twitterbot"@,
    )
}

/// The user agent, in lower case, is that of the uptime monitor or of a welcome search engine.
pub fn is_monitoring_agent(agent: &str) -> (r: bool)
    ensures
        r == monitoring_agent(agent@),
{
    contains(agent, "uptime-kuma") || contains(agent, "googlebot") || contains(agent, "twitterbot")
}

/// The user agent, in lower case, names a known crawler.
pub open spec fn known_crawler(agent: Seq<char>) -> bool {
    has_text(agent, "googlebot"@) || has_text(agent, "bingbot"@) || has_text(agent, "twitterbot"@)
        || has_text(agent, "applebot"@) || has_text(agent, "yandexbot"@)
}

/// The user agent, in lower case, names a known crawler.
pub fn is_known_crawler(agent: &str) -> (r: bool)
    ensures
        r == known_crawler(agent@),
{
    contains(agent, "googlebot") || contains(agent, "bingbot") || contains(agent, "twitterbot")
        || contains(agent, "applebot") || contains(agent, "yandexbot")
}

/// The address belongs to one of the private networks 10/8, 192.168/16 and 172.16/12.
pub open spec fn internal_ip(ip: Seq<char>) -> bool {
    ||| has_prefix(ip, "10."@)
    ||| has_prefix(ip, "192.168."@)
    ||| has_prefix(ip, "172."@) && pieces(ip, '.').len() > 1 && (unsigned_value(
        pieces(ip, '.')[1],
        255,
    ) matches Some(n) && 16 <= n <= 31)
}

/// The address belongs to one of the private networks 10/8, 192.168/16 and 172.16/12.
pub fn is_internal_ip(ip: &str) -> (r: bool)
    ensures
        r == internal_ip(ip@),
{
    if starts_with(ip, "10.") || starts_with(ip, "192.168.") {
        return true;
    }
    if !starts_with(ip, "172.") {
        return false;
    }
    let parts = split(ip, '.');
    assert(texts(parts@).len() == parts@.len());
    if parts.len() < 2 {
        return false;
    }
    assert(texts(parts@)[1] == parts@[1]@);
    match parse_unsigned(parts[1].as_str(), 255) {
        Some(octet) => 16 <= octet && octet <= 31,
        None => false,
    }
}

/// The path, in lower case, is that of a style sheet, script, image or font.
pub open spec fn static_resource(url: Seq<char>) -> bool {
    has_text(url, ".css"@) || has_text(url, ".js"@) || has_text(url, ".png"@) || has_text(
        url,
        ".jpg"@,
    ) || has_text(url, ".jpeg"@) || has_text(url, ".ico"@) || has_text(url, ".svg"@) || has_text(
        url,
        ".woff"@,
    ) || has_text(url, "/api/images"@)
}

/// The path, in lower case, is that of a style sheet, script, image or font.
pub fn is_static_resource(url: &str) -> (r: bool)
    ensures
        r == static_resource(url@),
{
    contains(url, ".css") || contains(url, ".js") || contains(url, ".png") || contains(url, ".jpg")
        || contains(url, ".jpeg") || contains(url, ".ico") || contains(url, ".svg") || contains(
        url,
        ".woff",
    ) || contains(url, "/api/images")
}

/// The path, in lower case, is that of a call that the site's own pages make.
pub open spec fn normal_app_api(url: Seq<char>) -> bool {
    has_text(url, "/api/ds/"@) || has_text(url, "/api/query"@) || has_text(url, "/api/items"@)
        || has_text(url, "/api/users/slug"@) || has_text(url, "/api/send"@) || has_text(
        url,
        "/api/record"@,
    ) || has_text(url, "/public/build/"@) || has_text(url, "/websites"@)
}

/// The path, in lower case, is that of a call that the site's own pages make.
pub fn is_normal_app_api(url: &str) -> (r: bool)
    ensures
        r == normal_app_api(url@),
{
    contains(url, "/api/ds/") || contains(url, "/api/query") || contains(url, "/api/items")
        || contains(url, "/api/users/slug") || contains(url, "/api/send") || contains(
        url,
        "/api/record",
    ) || contains(url, "/public/build/") || contains(url, "/websites")
}

/// The status says that the client asked for what it may not have or what is not there.
pub open spec fn client_error(status: int) -> bool {
    status == 400 || status == 401 || status == 403 || status == 404
}

/// The status that a text states, 0 where it states none.
pub open spec fn status_code(status: Seq<char>) -> int {
    match signed_value(status) {
        Some(n) => n,
        None => 0,
    }
}

/// The status that a text states, 0 where it states none.
pub fn parse_status(status: &str) -> (r: i32)
    ensures
        r == status_code(status@),
{
    match parse_signed(status) {
        Some(n) => n,
        None => 0,
    }
}

/// The request counts: it is for the site, neither from a monitor or welcome search engine nor
/// from within.
pub open spec fn relevant(q: RequestText) -> bool {
    own_host(q.host) && !monitoring_agent(lowercase(q.user_agent)) && !internal_ip(q.ip)
}

/// The request counts.
pub fn is_relevant(q: &Request) -> (r: bool)
    ensures
        r == relevant(q@),
{
    is_own_host(q.host.as_str()) && !is_monitoring_agent(
        q.user_agent.as_str().to_lowercase().as_str(),
    ) && !is_internal_ip(q.ip.as_str())
}

// ---------------------------------------------------------------------------
// Laws
// ---------------------------------------------------------------------------

/// A path is that of a page resource wherever in it one of the endings or the place of the images
/// stands, and no other path is.
pub proof fn law_resources_told(a: Seq<char>, b: Seq<char>, url: Seq<char>)
    ensures
        static_resource(a + ".css"@ + b),
        static_resource(a + ".js"@ + b),
        static_resource(a + ".png"@ + b),
        static_resource(a + ".jpg"@ + b),
        static_resource(a + ".jpeg"@ + b),
        static_resource(a + ".ico"@ + b),
        static_resource(a + ".svg"@ + b),
        static_resource(a + ".woff"@ + b),
        static_resource(a + "/api/images"@ + b),
        !has_text(url, ".css"@) && !has_text(url, ".js"@) && !has_text(url, ".png"@) && !has_text(url, ".jpg"@) && !has_text(url, ".jpeg"@) && !has_text(url, ".ico"@) && !has_text(url, ".svg"@) && !has_text(url, ".woff"@) && !has_text(url, "/api/images"@) ==> !static_resource(url),
{
    law_text_found(a, ".css"@, b);
    law_text_found(a, ".js"@, b);
    law_text_found(a, ".png"@, b);
    law_text_found(a, ".jpg"@, b);
    law_text_found(a, ".jpeg"@, b);
    law_text_found(a, ".ico"@, b);
    law_text_found(a, ".svg"@, b);
    law_text_found(a, ".woff"@, b);
    law_text_found(a, "/api/images"@, b);
}

/// A path is that of a call of the site's own pages wherever in it one of their calls stands, and no
/// other path is.
pub proof fn law_app_calls_told(a: Seq<char>, b: Seq<char>, url: Seq<char>)
    ensures
        normal_app_api(a + "/api/ds/"@ + b),
        normal_app_api(a + "/api/query"@ + b),
        normal_app_api(a + "/api/items"@ + b),
        normal_app_api(a + "/api/users/slug"@ + b),
        normal_app_api(a + "/api/send"@ + b),
        normal_app_api(a + "/api/record"@ + b),
        normal_app_api(a + "/public/build/"@ + b),
        normal_app_api(a + "/websites"@ + b),
        !has_text(url, "/api/ds/"@) && !has_text(url, "/api/query"@) && !has_text(url, "/api/items"@) && !has_text(url, "/api/users/slug"@) && !has_text(url, "/api/send"@) && !has_text(url, "/api/record"@) && !has_text(url, "/public/build/"@) && !has_text(url, "/websites"@) ==> !normal_app_api(url),
{
    law_text_found(a, "/api/ds/"@, b);
    law_text_found(a, "/api/query"@, b);
    law_text_found(a, "/api/items"@, b);
    law_text_found(a, "/api/users/slug"@, b);
    law_text_found(a, "/api/send"@, b);
    law_text_found(a, "/api/record"@, b);
    law_text_found(a, "/public/build/"@, b);
    law_text_found(a, "/websites"@, b);
}

/// A user agent is that of a known crawler wherever in it one of their names stands, and no other
/// user agent is.
pub proof fn law_crawlers_told(a: Seq<char>, b: Seq<char>, agent: Seq<char>)
    ensures
        known_crawler(a + "googlebot"@ + b),
        known_crawler(a + "bingbot"@ + b),
        known_crawler(a + "twitterbot"@ + b),
        known_crawler(a + "applebot"@ + b),
        known_crawler(a + "yandexbot"@ + b),
        !has_text(agent, "googlebot"@) && !has_text(agent, "bingbot"@) && !has_text(agent, "twitterbot"@) && !has_text(agent, "applebot"@) && !has_text(agent, "yandexbot"@) ==> !known_crawler(agent),
{
    law_text_found(a, "googlebot"@, b);
    law_text_found(a, "bingbot"@, b);
    law_text_found(a, "twitterbot"@, b);
    law_text_found(a, "applebot"@, b);
    law_text_found(a, "yandexbot"@, b);
}

/// A user agent is that of the uptime monitor or of a welcome search engine wherever in it one of
/// their names stands, and no other user agent is.
pub proof fn law_monitors_told(a: Seq<char>, b: Seq<char>, agent: Seq<char>)
    ensures
        monitoring_agent(a + "uptime-kuma"@ + b),
        monitoring_agent(a + "googlebot"@ + b),
        monitoring_agent(a + "twitterbot"@ + b),
        !has_text(agent, "uptime-kuma"@) && !has_text(agent, "googlebot"@) && !has_text(agent, "twitterbot"@) ==> !monitoring_agent(agent),
{
    law_text_found(a, "uptime-kuma"@, b);
    law_text_found(a, "googlebot"@, b);
    law_text_found(a, "twitterbot"@, b);
}

/// The requests that count are exactly those for the site or its API that come neither from the
/// uptime monitor, nor from a welcome search engine, nor from within.
pub proof fn law_requests_that_count(q: RequestText)
    ensures
        relevant(q) <==> (q.host == "cmsn.info"@ || q.host == "api.cmsn.info"@) && !has_text(
            lowercase(q.user_agent),
            "uptime-kuma"@,
        ) && !has_text(lowercase(q.user_agent), "googlebot"@) && !has_text(
            lowercase(q.user_agent),
            "twitterbot"@,
        ) && !internal_ip(q.ip),
{
}

proof fn lemma_number_lacks_dot(n: nat)
    ensures
        !decimal(n).contains('.'),
{
    law_decimal_value(n);
    let d = decimal(n);
    assert forall|i: int| 0 <= i < d.len() implies d[i] != '.' by {
        assert(is_digit(d[i]));
    }
}

proof fn lemma_small_numbers()
    ensures
        decimal(10) == "10"@,
        decimal(168) == "168"@,
        decimal(172) == "172"@,
        decimal(192) == "192"@,
{
    reveal_with_fuel(decimal, 4);
    reveal_strlit("10");
    reveal_strlit("168");
    reveal_strlit("172");
    reveal_strlit("192");
    assert(decimal(10) == "10"@);
    assert(decimal(168) == "168"@);
    assert(decimal(172) == "172"@);
    assert(decimal(192) == "192"@);
}

/// An address comes from within exactly when its first number is 10, or its first two are 192 and
/// 168, or its first is 172 and its second is from 16 to 31, whatever else it holds.
pub proof fn law_private_networks(n: nat, m: nat, rest: Seq<char>)
    ensures
        internal_ip(decimal(n) + seq!['.'] + decimal(m) + seq!['.'] + rest) <==> n == 10 || (n
            == 192 && m == 168) || (n == 172 && 16 <= m <= 31),
{
    let ip = decimal(n) + seq!['.'] + decimal(m) + seq!['.'] + rest;
    let tail = decimal(m).push('.') + rest;
    let parts = pieces(ip, '.');
    assert(ip == decimal(n).push('.') + tail);
    lemma_number_lacks_dot(n);
    lemma_number_lacks_dot(m);
    law_pieces_cut(decimal(n), '.', tail);
    law_pieces_cut(decimal(m), '.', rest);
    law_whole_piece(decimal(n), '.');
    law_whole_piece(decimal(m), '.');
    lemma_pieces_nonempty(rest, '.');
    assert(parts.len() >= 3);
    assert(parts[0] == decimal(n) && parts[1] == decimal(m));
    lemma_small_numbers();
    law_unsigned_exact(m, 255);
    reveal_strlit("10.");
    reveal_strlit("192.168.");
    reveal_strlit("172.");
    reveal_strlit("10");
    reveal_strlit("168");
    reveal_strlit("172");
    reveal_strlit("192");
    if has_prefix(ip, "10."@) {
        lemma_number_lacks_dot(10);
        assert("10."@ == "10"@.push('.'));
        lemma_first_number(ip, "10."@, "10"@);
        law_decimal_injective(n, 10);
    }
    if has_prefix(ip, "172."@) {
        lemma_number_lacks_dot(172);
        assert("172."@ == "172"@.push('.'));
        lemma_first_number(ip, "172."@, "172"@);
        law_decimal_injective(n, 172);
    }
    if has_prefix(ip, "192.168."@) {
        let t = ip.skip(8);
        assert(ip.subrange(0, 8) == "192.168."@);
        assert forall|i: int| 0 <= i < 8 implies ip[i] == "192.168."@[i] by {
            assert(ip.subrange(0, 8)[i] == ip[i]);
        }
        let back = "168"@.push('.') + t;
        assert(ip == "192"@.push('.') + back);
        lemma_number_lacks_dot(192);
        lemma_number_lacks_dot(168);
        law_pieces_cut("192"@, '.', back);
        law_pieces_cut("168"@, '.', t);
        law_whole_piece("192"@, '.');
        law_whole_piece("168"@, '.');
        lemma_pieces_nonempty(t, '.');
        law_decimal_injective(n, 192);
        law_decimal_injective(m, 168);
    }
    if n == 10 {
        assert(ip.subrange(0, 3) == "10."@);
    }
    if n == 172 {
        assert(ip.subrange(0, 4) == "172."@);
    }
    if n == 192 && m == 168 {
        assert(ip.subrange(0, 8) == "192.168."@);
    }
}

proof fn lemma_first_number(ip: Seq<char>, prefix: Seq<char>, number: Seq<char>)
    requires
        has_prefix(ip, prefix),
        prefix == number.push('.'),
        !number.contains('.'),
    ensures
        pieces(ip, '.').len() > 0,
        pieces(ip, '.')[0] == number,
{
    let t = ip.skip(prefix.len() as int);
    assert(ip.subrange(0, prefix.len() as int) == prefix);
    assert(ip == ip.subrange(0, prefix.len() as int) + t);
    law_pieces_cut(number, '.', t);
    law_whole_piece(number, '.');
}

/// The status of a request is the number that its text states in decimal notation, and 0 where 32
/// bits do not hold it.
pub proof fn law_status_read(n: nat)
    ensures
        status_code(decimal(n)) == if n <= i32::MAX {
            n as int
        } else {
            0
        },
{
    law_signed_exact(n as int);
}

/// A status is 0 where its text is empty or has a character that is neither a digit nor a sign at
/// its start.
pub proof fn law_status_missing(s: Seq<char>, i: int)
    requires
        s.len() == 0 || (0 <= i < s.len() && !is_digit(s[i]) && (i > 0 || (s[0] != '+' && s[0]
            != '-'))),
    ensures
        status_code(s) == 0,
{
    law_other_text_refused(s, i, 0);
}

/// A request is refused to its client exactly when it is answered 400, 401, 403 or 404: no status
/// below 400 is a refusal, nor 402, nor any from 405 on.
pub proof fn law_refusals_told(status: int)
    ensures
        client_error(status) <==> 400 <= status <= 404 && status != 402,
{
}

/// The texts of a request stand in the groups of a match in one order, with the time, where there
/// is one, behind the address. Where a group is missing, there is no request.
pub proof fn law_groups_in_order(
    whole: Option<Seq<char>>,
    time: Option<Seq<char>>,
    q: RequestText,
    g: Seq<Option<Seq<char>>>,
    i: int,
)
    requires
        1 <= i <= 6,
    ensures
        request_in(
            seq![
                whole,
                Some(q.ip),
                Some(q.method),
                Some(q.url),
                Some(q.status),
                Some(q.user_agent),
                Some(q.host),
            ],
            false,
        ) == Some(q),
        request_in(
            seq![
                whole,
                Some(q.ip),
                time,
                Some(q.method),
                Some(q.url),
                Some(q.status),
                Some(q.user_agent),
                Some(q.host),
            ],
            true,
        ) == Some(q),
        g.len() <= i || g[i] is None ==> request_in(g, false) is None,
        i != 2 && (g.len() <= i || g[i] is None) ==> request_in(g, true) is None,
        g.len() <= 7 || g[7] is None ==> request_in(g, true) is None,
{
}

/// The request in a line is what the groups of its match hold, and there is none in a line that does
/// not match.
pub proof fn law_request_of_line(line: Seq<char>, whole: Option<Seq<char>>, q: RequestText)
    ensures
        regex_groups(REQUEST_PATTERN@, line) == Some(
            seq![
                whole,
                Some(q.ip),
                Some(q.method),
                Some(q.url),
                Some(q.status),
                Some(q.user_agent),
                Some(q.host),
            ],
        ) ==> request_in_line(line) == Some(q),
        regex_groups(REQUEST_PATTERN@, line) is None ==> request_in_line(line) is None,
{
    law_groups_in_order(whole, None, q, Seq::empty(), 1);
}

} // verus!
