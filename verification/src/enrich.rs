//! Adding the host to lines of the access log that do not name it.

use crate::pattern::{
    group, group_at, groups_seq, is_pattern, regex_groups, Matcher, PatternError,
};
use crate::text::{append, contains, has_text, law_text_found};
use vstd::prelude::*;

verus! {

/// A line of the access log with the service that it went to. Groups: what is before the service,
/// the service, what is behind it.
pub const SERVICE_PATTERN: &'static str = r#"(?P<before>.*) \[(?P<k8s_service>[^\]]*)\] \[\] (?P<after>.*)"#;

/// The host that a service answers for.
pub open spec fn host_of(service: Seq<char>) -> Seq<char> {
    if has_text(service, "front-service"@) {
        "cmsn.info"@
    } else if has_text(service, "back-service"@) {
        "api.cmsn.info"@
    } else if has_text(service, "umami"@) {
        "umami.cmsn.info"@
    } else if has_text(service, "grafana"@) {
        "grafana.cmsn.info"@
    } else {
        "-"@
    }
}

/// The host that a service answers for.
pub fn host_domain(service: &str) -> (r: &'static str)
    ensures
        r@ == host_of(service@),
{
    if contains(service, "front-service") {
        "cmsn.info"
    } else if contains(service, "back-service") {
        "api.cmsn.info"
    } else if contains(service, "umami") {
        "umami.cmsn.info"
    } else if contains(service, "grafana") {
        "grafana.cmsn.info"
    } else {
        "-"
    }
}

/// The line that the groups of a match were taken from, with the host in quotes behind it.
pub open spec fn enriched_from(g: Seq<Option<Seq<char>>>) -> Option<Seq<char>> {
    match (group_at(g, 1), group_at(g, 2), group_at(g, 3)) {
        (Some(before), Some(service), Some(after)) => Some(
            before + " ["@ + service + "] [] "@ + after + " \""@ + host_of(service) + "\""@,
        ),
        _ => None,
    }
}

/// The line with its host, where the line has a service.
pub open spec fn enriched(line: Seq<char>) -> Option<Seq<char>> {
    match regex_groups(SERVICE_PATTERN@, line) {
        Some(g) => enriched_from(g),
        None => None,
    }
}

/// The text of a line that may be missing.
pub open spec fn line_view(r: Option<String>) -> Option<Seq<char>> {
    match r {
        Some(s) => Some(s@),
        None => None,
    }
}

/// The line that the groups of a match were taken from, with the host in quotes behind it.
pub fn enrich_groups(g: &Vec<Option<String>>) -> (r: Option<String>)
    ensures
        line_view(r) == enriched_from(groups_seq(g@)),
{
    match (group(g, 1), group(g, 2), group(g, 3)) {
        (Some(before), Some(service), Some(after)) => {
            let mut line = append(before.as_str(), " [");
            line.append(service.as_str());
            line.append("] [] ");
            line.append(after.as_str());
            line.append(" \"");
            line.append(host_domain(service.as_str()));
            line.append("\"");
            Some(line)
        },
        _ => None,
    }
}

/// Adds hosts to lines and counts them.
pub struct Enricher {
    matcher: Matcher,
    total_lines: u64,
    enriched_lines: u64,
}

impl Enricher {
    /// The right pattern is in use, and no more lines were changed than read.
    pub closed spec fn wf(self) -> bool {
        self.matcher.pattern() == SERVICE_PATTERN@ && self.enriched_lines <= self.total_lines
    }

    /// The lines read.
    pub closed spec fn total(self) -> nat {
        self.total_lines as nat
    }

    /// The lines that a host was added to.
    pub closed spec fn changed(self) -> nat {
        self.enriched_lines as nat
    }

    /// No line was read yet.
    pub fn new() -> (r: Result<Enricher, PatternError>)
        ensures
            match r {
                Ok(e) => is_pattern(SERVICE_PATTERN@) && e.wf() && e.total() == 0 && e.changed()
                    == 0,
                Err(_) => !is_pattern(SERVICE_PATTERN@),
            },
    {
        match Matcher::new(SERVICE_PATTERN) {
            Ok(matcher) => Ok(Enricher { matcher, total_lines: 0, enriched_lines: 0 }),
            Err(e) => Err(e),
        }
    }

    /// The lines read.
    pub fn total_lines(&self) -> (r: u64)
        ensures
            r == self.total(),
    {
        self.total_lines
    }

    /// The lines that a host was added to.
    pub fn enriched_lines(&self) -> (r: u64)
        ensures
            r == self.changed(),
    {
        self.enriched_lines
    }

    /// The line with its host; one without a service stays as it is.
    pub fn enrich(&mut self, line: &str) -> (r: String)
        requires
            old(self).wf(),
            old(self).total() < u64::MAX,
        ensures
            final(self).wf(),
            final(self).total() == old(self).total() + 1,
            match enriched(line@) {
                Some(text) => r@ == text && final(self).changed() == old(self).changed() + 1,
                None => r@ == line@ && final(self).changed() == old(self).changed(),
            },
    {
        self.total_lines = self.total_lines + 1;
        let found = match self.matcher.groups(line) {
            Some(g) => enrich_groups(&g),
            None => None,
        };
        match found {
            Some(text) => {
                self.enriched_lines = self.enriched_lines + 1;
                text
            },
            None => line.to_owned(),
        }
    }
}

// ---------------------------------------------------------------------------
// Laws
// ---------------------------------------------------------------------------

/// Adding the host keeps all of what matched: it only puts the host behind it.
pub proof fn law_line_kept(before: Seq<char>, service: Seq<char>, after: Seq<char>)
    ensures
        enriched_from(seq![None, Some(before), Some(service), Some(after)]) == Some(
            (before + " ["@ + service + "] [] "@ + after) + (" \""@ + host_of(service) + "\""@),
        ),
{
    let line = before + " ["@ + service + "] [] "@ + after;
    assert(line + " \""@ + host_of(service) + "\""@ == line + (" \""@ + host_of(service)
        + "\""@));
}

/// A service answers for the site, its API or one of its tools by the name that stands anywhere in
/// it, that of the site before that of the API, and that before those of the tools; any other
/// answers for none.
pub proof fn law_hosts_told(a: Seq<char>, b: Seq<char>, service: Seq<char>)
    ensures
        host_of(a + "front-service"@ + b) == "cmsn.info"@,
        service == a + "back-service"@ + b && !has_text(service, "front-service"@) ==> host_of(
            service,
        ) == "api.cmsn.info"@,
        service == a + "umami"@ + b && !has_text(service, "front-service"@) && !has_text(
            service,
            "back-service"@,
        ) ==> host_of(service) == "umami.cmsn.info"@,
        service == a + "grafana"@ + b && !has_text(service, "front-service"@) && !has_text(
            service,
            "back-service"@,
        ) && !has_text(service, "umami"@) ==> host_of(service) == "grafana.cmsn.info"@,
        !has_text(service, "front-service"@) && !has_text(service, "back-service"@) && !has_text(
            service,
            "umami"@,
        ) && !has_text(service, "grafana"@) ==> host_of(service) == "-"@,
{
    law_text_found(a, "front-service"@, b);
    law_text_found(a, "back-service"@, b);
    law_text_found(a, "umami"@, b);
    law_text_found(a, "grafana"@, b);
}

/// A line is changed exactly when all three groups took part in its match, and then it has what
/// stood before the service, the service in brackets, an empty pair of brackets and what stood
/// behind it, as before, and the host in quotes at its end.
pub proof fn law_groups_kept(g: Seq<Option<Seq<char>>>)
    ensures
        enriched_from(g) is Some <==> g.len() > 3 && g[1] is Some && g[2] is Some && g[3] is Some,
        enriched_from(g) matches Some(line) ==> line == (g[1]->0 + " ["@ + g[2]->0 + "] [] "@
            + g[3]->0) + (" \""@ + host_of(g[2]->0) + "\""@),
{
    if enriched_from(g) is Some {
        let (before, service, after) = (g[1]->0, g[2]->0, g[3]->0);
        let line = before + " ["@ + service + "] [] "@ + after;
        assert(line + " \""@ + host_of(service) + "\""@ == line + (" \""@ + host_of(service)
            + "\""@));
    }
}

/// A line that matches is changed by what the groups of its match hold, and one that does not match
/// stays as it is.
pub proof fn law_line_by_match(line: Seq<char>, g: Seq<Option<Seq<char>>>)
    ensures
        regex_groups(SERVICE_PATTERN@, line) == Some(g) ==> enriched(line) == enriched_from(g),
        regex_groups(SERVICE_PATTERN@, line) is None ==> enriched(line) is None,
{
}

} // verus!
