//! Requests as rows of the table that the access log is moved to.

use crate::ingress::{law_status_read, parse_status, status_code, TIMED_PATTERN};
use crate::number::decimal;
use crate::pattern::{group, group_at, groups_seq, regex_groups, Matcher};
use vstd::prelude::*;

verus! {

/// A row of the table of requests.
pub struct NginxRow {
    pub ip: String,
    pub timestamp: String,
    pub method: String,
    pub url: String,
    pub status: i32,
    pub user_agent: String,
    pub host: String,
}

/// What a row says.
pub struct NginxRowText {
    pub ip: Seq<char>,
    pub timestamp: Seq<char>,
    pub method: Seq<char>,
    pub url: Seq<char>,
    pub status: int,
    pub user_agent: Seq<char>,
    pub host: Seq<char>,
}

impl View for NginxRow {
    type V = NginxRowText;

    open spec fn view(&self) -> NginxRowText {
        NginxRowText {
            ip: self.ip@,
            timestamp: self.timestamp@,
            method: self.method@,
            url: self.url@,
            status: self.status as int,
            user_agent: self.user_agent@,
            host: self.host@,
        }
    }
}

/// The view of a row that may be missing.
pub open spec fn row_view(r: Option<NginxRow>) -> Option<NginxRowText> {
    match r {
        Some(row) => Some(row@),
        None => None,
    }
}

/// A group, or a dash where it took no part in the match.
pub open spec fn or_dash(g: Option<Seq<char>>) -> Seq<char> {
    match g {
        Some(s) => s,
        None => "-"@,
    }
}

/// The row in the groups of a match: a status that is no number is 0, a missing user agent or host
/// is a dash.
pub open spec fn row_in(g: Seq<Option<Seq<char>>>) -> Option<NginxRowText> {
    match (group_at(g, 1), group_at(g, 2), group_at(g, 3), group_at(g, 4), group_at(g, 5)) {
        (Some(ip), Some(timestamp), Some(method), Some(url), Some(status)) => Some(
            NginxRowText {
                ip,
                timestamp,
                method,
                url,
                status: status_code(status),
                user_agent: or_dash(group_at(g, 6)),
                host: or_dash(group_at(g, 7)),
            },
        ),
        _ => None,
    }
}

/// The row in a line.
pub open spec fn row_in_line(line: Seq<char>) -> Option<NginxRowText> {
    match regex_groups(TIMED_PATTERN@, line) {
        Some(g) => row_in(g),
        None => None,
    }
}

/// A group, or a dash where it took no part in the match.
fn group_or_dash(g: &Vec<Option<String>>, i: usize) -> (r: String)
    ensures
        r@ == or_dash(group_at(groups_seq(g@), i as int)),
{
    match group(g, i) {
        Some(s) => s,
        None => "-".to_owned(),
    }
}

/// The row in the groups of a match.
pub fn row_from_groups(g: &Vec<Option<String>>) -> (r: Option<NginxRow>)
    ensures
        row_view(r) == row_in(groups_seq(g@)),
{
    match (group(g, 1), group(g, 2), group(g, 3), group(g, 4), group(g, 5)) {
        (Some(ip), Some(timestamp), Some(method), Some(url), Some(status)) => Some(
            NginxRow {
                ip,
                timestamp,
                method,
                url,
                status: parse_status(status.as_str()),
                user_agent: group_or_dash(g, 6),
                host: group_or_dash(g, 7),
            },
        ),
        _ => None,
    }
}

/// The row in a line.
pub fn parse_row(format: &Matcher, line: &str) -> (r: Option<NginxRow>)
    requires
        format.pattern() == TIMED_PATTERN@,
    ensures
        row_view(r) == row_in_line(line@),
{
    match format.groups(line) {
        Some(g) => row_from_groups(&g),
        None => None,
    }
}

// ---------------------------------------------------------------------------
// Laws
// ---------------------------------------------------------------------------

/// The columns of a row stand in the groups of a match in one order. There is a row exactly when the
/// first five took part in the match; a user agent or a host that did not is a dash.
pub proof fn law_columns_in_order(g: Seq<Option<Seq<char>>>)
    ensures
        row_in(g) is Some <==> g.len() > 5 && g[1] is Some && g[2] is Some && g[3] is Some && g[4]
            is Some && g[5] is Some,
        row_in(g) matches Some(r) ==> g[1] == Some(r.ip) && g[2] == Some(r.timestamp) && g[3]
            == Some(r.method) && g[4] == Some(r.url) && r.status == status_code(g[5]->0),
        row_in(g) matches Some(r) ==> r.user_agent == if g.len() > 6 && g[6] is Some {
            g[6]->0
        } else {
            "-"@
        },
        row_in(g) matches Some(r) ==> r.host == if g.len() > 7 && g[7] is Some {
            g[7]->0
        } else {
            "-"@
        },
{
}

/// The status of a row is the number that the line states.
pub proof fn law_status_of_row(g: Seq<Option<Seq<char>>>, n: nat)
    requires
        row_in(g) is Some,
        g[5] == Some(decimal(n)),
        n <= i32::MAX,
    ensures
        row_in(g)->0.status == n,
{
    law_status_read(n);
}

/// The row in a line is what the groups of its match hold, and there is none in a line that does not
/// match.
pub proof fn law_row_of_line(line: Seq<char>, g: Seq<Option<Seq<char>>>)
    ensures
        regex_groups(TIMED_PATTERN@, line) == Some(g) ==> row_in_line(line) == row_in(g),
        regex_groups(TIMED_PATTERN@, line) is None ==> row_in_line(line) is None,
{
}

} // verus!
