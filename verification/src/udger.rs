//! What a directory of known addresses says of the traffic.

use crate::keyed::{
    count_of, count_sum, counted, distinct, has_key, is_at, lemma_counted, lemma_counted_sum,
    lemma_spot, spot, Counts, Keyed,
};
use crate::order::{
    law_sorted_in_order, law_sorted_keeps_values, lemma_sorted_map, preorder, rank, sort, sorted,
    Ranked,
};
use crate::text::{contains, has_text, law_text_found};
use vstd::prelude::*;

verus! {

// ---------------------------------------------------------------------------
// Addresses
// ---------------------------------------------------------------------------

/// An internet address: four bytes, or of the other kind.
#[derive(Clone, Copy, Debug, PartialEq, Eq, Structural)]
pub enum Address {
    V4(u8, u8, u8, u8),
    V6,
}

/// The number of an address, its first byte the highest. Only those of four bytes have one.
pub open spec fn long_of(ip: Address) -> Option<nat> {
    match ip {
        Address::V4(a, b, c, d) => Some((((a * 256 + b) * 256 + c) * 256 + d) as nat),
        Address::V6 => None,
    }
}

/// The number of an address, its first byte the highest.
pub fn ip_to_long(ip: &Address) -> (r: Option<u32>)
    ensures
        match r {
            Some(n) => long_of(*ip) == Some(n as nat),
            None => long_of(*ip) is None,
        },
{
    match ip {
        Address::V4(a, b, c, d) => Some(
            ((*a as u32 * 256 + *b as u32) * 256 + *c as u32) * 256 + *d as u32,
        ),
        Address::V6 => None,
    }
}

// ---------------------------------------------------------------------------
// Names
// ---------------------------------------------------------------------------

/// The name of a country that may not be known.
pub open spec fn country_of(country: Option<Seq<char>>) -> Seq<char> {
    match country {
        Some(c) => c,
        None => "Unknown/Private"@,
    }
}

/// The name of a crawler: the one that the directory has, else one told from the user agent.
pub open spec fn crawler_of(crawler: Option<Seq<char>>, agent: Seq<char>) -> Seq<char> {
    match crawler {
        Some(c) => c,
        None => if has_text(agent, "Googlebot"@) {
            "Googlebot (Est.)"@
        } else if has_text(agent, "bingbot"@) {
            "Bingbot (Est.)"@
        } else {
            "Unclassified Bot"@
        },
    }
}

/// The text of a name that may be missing.
pub open spec fn name_view(r: Option<String>) -> Option<Seq<char>> {
    match r {
        Some(s) => Some(s@),
        None => None,
    }
}

/// The name of a country that may not be known.
pub fn country_name(country: &Option<String>) -> (r: String)
    ensures
        r@ == country_of(name_view(*country)),
{
    match country {
        Some(c) => c.clone(),
        None => "Unknown/Private".to_owned(),
    }
}

/// The name of a crawler.
pub fn crawler_name(crawler: &Option<String>, agent: &str) -> (r: String)
    ensures
        r@ == crawler_of(name_view(*crawler), agent@),
{
    match crawler {
        Some(c) => c.clone(),
        None => if contains(agent, "Googlebot") {
            "Googlebot (Est.)".to_owned()
        } else if contains(agent, "bingbot") {
            "Bingbot (Est.)".to_owned()
        } else {
            "Unclassified Bot".to_owned()
        },
    }
}

// ---------------------------------------------------------------------------
// Statistics
// ---------------------------------------------------------------------------

/// Requests with the same address, path and user agent, counted.
pub struct LogRow {
    pub ip: String,
    pub url: String,
    pub user_agent: String,
    pub count: u64,
}

/// What a row says.
pub struct LogRowText {
    pub ip: Seq<char>,
    pub url: Seq<char>,
    pub user_agent: Seq<char>,
    pub count: nat,
}

impl View for LogRow {
    type V = LogRowText;

    open spec fn view(&self) -> LogRowText {
        LogRowText {
            ip: self.ip@,
            url: self.url@,
            user_agent: self.user_agent@,
            count: self.count as nat,
        }
    }
}

/// What the directory has on a known address.
pub struct KnownIp {
    pub country: Option<String>,
    pub crawler: Option<String>,
}

/// The country and crawler of a known address.
pub type KnownIpText = (Option<Seq<char>>, Option<Seq<char>>);

impl View for KnownIp {
    type V = KnownIpText;

    open spec fn view(&self) -> KnownIpText {
        (name_view(self.country), name_view(self.crawler))
    }
}

/// The view of what may be missing.
pub open spec fn known_view(k: Option<KnownIp>) -> Option<KnownIpText> {
    match k {
        Some(x) => Some(x@),
        None => None,
    }
}

/// A known address in the report.
pub struct Detail {
    pub country: String,
    pub crawler: String,
    pub count: u64,
}

/// The country, the crawler and the number of requests of a known address.
pub type DetailText = (Seq<char>, Seq<char>, nat);

impl View for Detail {
    type V = DetailText;

    open spec fn view(&self) -> DetailText {
        (self.country@, self.crawler@, self.count as nat)
    }
}

/// All that was counted.
pub struct StatsState {
    /// All requests.
    pub total: nat,
    /// The requests from each data centre.
    pub datacenters: Seq<(Seq<char>, nat)>,
    /// The requests of known addresses from each country.
    pub countries: Seq<(Seq<char>, nat)>,
    /// The requests of known addresses for each path.
    pub urls: Seq<(Seq<char>, nat)>,
    /// The requests of each crawler.
    pub crawlers: Seq<(Seq<char>, nat)>,
    /// The known addresses.
    pub details: Seq<(Seq<char>, DetailText)>,
}

/// The known addresses after `n` more requests of one of them; the country and the crawler stay
/// what they were at first.
pub open spec fn detailed(
    s: Seq<(Seq<char>, DetailText)>,
    ip: Seq<char>,
    country: Seq<char>,
    crawler: Seq<char>,
    n: nat,
) -> Seq<(Seq<char>, DetailText)> {
    if has_key(s, ip) {
        let i = spot(s, ip);
        s.update(i, (ip, (s[i].1.0, s[i].1.1, s[i].1.2 + n)))
    } else {
        s.push((ip, (country, crawler, n)))
    }
}

/// The requests of all known addresses.
pub open spec fn detail_sum(s: Seq<(Seq<char>, DetailText)>) -> nat
    decreases s.len(),
{
    if s.len() == 0 {
        0
    } else {
        detail_sum(s.drop_last()) + s.last().1.2
    }
}

/// What is counted after one more row, with the data centre and the entry of the directory that its
/// address has.
pub open spec fn after_row(
    s: StatsState,
    row: LogRowText,
    datacenter: Option<Seq<char>>,
    known: Option<KnownIpText>,
) -> StatsState {
    let s = StatsState { total: s.total + row.count, ..s };
    let s = match datacenter {
        Some(name) => StatsState { datacenters: counted(s.datacenters, name, row.count), ..s },
        None => s,
    };
    match known {
        Some(k) => {
            let country = country_of(k.0);
            let crawler = crawler_of(k.1, row.user_agent);
            StatsState {
                countries: counted(s.countries, country, row.count),
                urls: counted(s.urls, row.url, row.count),
                crawlers: counted(s.crawlers, crawler, row.count),
                details: detailed(s.details, row.ip, country, crawler, row.count),
                ..s
            }
        },
        None => s,
    }
}

/// Every request of a known address is counted once in each table, and there are no more of them,
/// nor of those from data centres, than requests.
pub open spec fn balanced(s: StatsState) -> bool {
    &&& count_sum(s.datacenters) <= s.total
    &&& count_sum(s.countries) <= s.total
    &&& count_sum(s.urls) == count_sum(s.countries)
    &&& count_sum(s.crawlers) == count_sum(s.countries)
    &&& detail_sum(s.details) == count_sum(s.countries)
}

/// What is counted at the start.
pub open spec fn no_rows() -> StatsState {
    StatsState {
        total: 0,
        datacenters: Seq::empty(),
        countries: Seq::empty(),
        urls: Seq::empty(),
        crawlers: Seq::empty(),
        details: Seq::empty(),
    }
}

proof fn lemma_detail_update(s: Seq<(Seq<char>, DetailText)>, i: int, e: (Seq<char>, DetailText))
    requires
        0 <= i < s.len(),
    ensures
        detail_sum(s.update(i, e)) == detail_sum(s) - s[i].1.2 + e.1.2,
        s[i].1.2 <= detail_sum(s),
    decreases s.len(),
{
    if i < s.len() - 1 {
        lemma_detail_update(s.drop_last(), i, e);
        assert(s.update(i, e).drop_last() == s.drop_last().update(i, e));
    } else {
        assert(s.update(i, e).drop_last() == s.drop_last());
    }
}

proof fn lemma_detailed_sum(
    s: Seq<(Seq<char>, DetailText)>,
    ip: Seq<char>,
    country: Seq<char>,
    crawler: Seq<char>,
    n: nat,
)
    ensures
        detail_sum(detailed(s, ip, country, crawler, n)) == detail_sum(s) + n,
{
    if has_key(s, ip) {
        let i = spot(s, ip);
        assert(is_at(s, ip, i));
        lemma_detail_update(s, i, (ip, (s[i].1.0, s[i].1.1, s[i].1.2 + n)));
    } else {
        let e = (ip, (country, crawler, n));
        assert(s.push(e).drop_last() == s);
    }
}

/// The counts of the report.
pub struct Stats {
    total_logs: u64,
    datacenters: Counts,
    countries: Counts,
    urls: Counts,
    crawlers: Counts,
    details: Keyed<Detail>,
}

impl Stats {
    /// All that was counted.
    pub closed spec fn state(self) -> StatsState {
        StatsState {
            total: self.total_logs as nat,
            datacenters: self.datacenters.tally(),
            countries: self.countries.tally(),
            urls: self.urls.tally(),
            crawlers: self.crawlers.tally(),
            details: detail_views(self.details.entries()),
        }
    }

    /// The tables are in order, and their counts agree.
    pub closed spec fn wf(self) -> bool {
        &&& self.datacenters.wf()
        &&& self.countries.wf()
        &&& self.urls.wf()
        &&& self.crawlers.wf()
        &&& self.details.wf()
        &&& balanced(self.state())
    }

    /// The counts agree, and all requests can be counted in 64 bits.
    pub proof fn law_balanced(self)
        requires
            self.wf(),
        ensures
            balanced(self.state()),
            self.state().total <= u64::MAX,
    {
    }

    /// Nothing was counted yet.
    pub fn new() -> (r: Stats)
        ensures
            r.wf(),
            r.state() == no_rows(),
    {
        let r = Stats {
            total_logs: 0,
            datacenters: Counts::new(),
            countries: Counts::new(),
            urls: Counts::new(),
            crawlers: Counts::new(),
            details: Keyed::new(),
        };
        assert(detail_views(r.details.entries()) == Seq::<(Seq<char>, DetailText)>::empty());
        r
    }

    /// All requests.
    pub fn total_logs(&self) -> (r: u64)
        ensures
            r == self.state().total,
    {
        self.total_logs
    }

    /// The requests from each data centre.
    pub fn datacenters(&self) -> (r: &Counts)
        requires
            self.wf(),
        ensures
            r.wf(),
            r.tally() == self.state().datacenters,
    {
        &self.datacenters
    }

    /// The requests of known addresses from each country.
    pub fn countries(&self) -> (r: &Counts)
        requires
            self.wf(),
        ensures
            r.wf(),
            r.tally() == self.state().countries,
    {
        &self.countries
    }

    /// The requests of known addresses for each path.
    pub fn urls(&self) -> (r: &Counts)
        requires
            self.wf(),
        ensures
            r.wf(),
            r.tally() == self.state().urls,
    {
        &self.urls
    }

    /// The requests of each crawler.
    pub fn crawlers(&self) -> (r: &Counts)
        requires
            self.wf(),
        ensures
            r.wf(),
            r.tally() == self.state().crawlers,
    {
        &self.crawlers
    }

    /// The requests from data centres.
    pub fn datacenter_hits(&self) -> (r: u64)
        requires
            self.wf(),
        ensures
            r == count_sum(self.state().datacenters),
    {
        total_of(&self.datacenters)
    }

    /// The requests of known addresses.
    pub fn known_ip_hits(&self) -> (r: u64)
        requires
            self.wf(),
        ensures
            r == count_sum(self.state().countries),
    {
        total_of(&self.countries)
    }

    /// Counts a row, with the data centre and the entry of the directory that its address has. All
    /// requests must be countable in 64 bits.
    pub fn record(&mut self, row: &LogRow, datacenter: &Option<String>, known: &Option<KnownIp>)
        requires
            old(self).wf(),
            old(self).state().total + row.count <= u64::MAX,
        ensures
            final(self).wf(),
            final(self).state() == after_row(
                old(self).state(),
                row@,
                name_view(*datacenter),
                known_view(*known),
            ),
    {
        let ghost s0 = self.state();
        proof {
            law_tables_agree(s0, row@, name_view(*datacenter), known_view(*known));
        }
        self.total_logs = self.total_logs + row.count;
        match datacenter {
            Some(name) => {
                self.datacenters.add_to(name.as_str(), row.count);
            },
            None => {},
        }
        match known {
            Some(k) => {
                let country = country_name(&k.country);
                let crawler = crawler_name(&k.crawler, row.user_agent.as_str());
                self.countries.add_to(country.as_str(), row.count);
                self.urls.add_to(row.url.as_str(), row.count);
                self.crawlers.add_to(crawler.as_str(), row.count);
                self.detail(row.ip.as_str(), country, crawler, row.count);
            },
            None => {},
        }
    }

    /// Counts requests of a known address.
    fn detail(&mut self, ip: &str, country: String, crawler: String, n: u64)
        requires
            old(self).details.wf(),
            detail_sum(detail_views(old(self).details.entries())) + n <= u64::MAX,
        ensures
            final(self).details.wf(),
            detail_views(final(self).details.entries()) == detailed(
                detail_views(old(self).details.entries()),
                ip@,
                country@,
                crawler@,
                n as nat,
            ),
            final(self).total_logs == old(self).total_logs,
            final(self).datacenters == old(self).datacenters,
            final(self).countries == old(self).countries,
            final(self).urls == old(self).urls,
            final(self).crawlers == old(self).crawlers,
    {
        let ghost e0 = self.details.entries();
        let ghost s0 = detail_views(e0);
        proof {
            self.details.lemma_distinct();
            lemma_views_distinct(e0);
        }
        match self.details.position(ip) {
            Some(i) => {
                proof {
                    assert(is_at(s0, ip@, i as int));
                    lemma_spot(s0, ip@, i as int);
                    lemma_detail_update(s0, i as int, s0[i as int]);
                }
                let slot = self.details.value_mut(i);
                slot.count = slot.count + n;
                let ghost old_detail = s0[i as int].1;
                assert(detail_views(self.details.entries()) == s0.update(
                    i as int,
                    (ip@, (old_detail.0, old_detail.1, old_detail.2 + n as nat)),
                ));
            },
            None => {
                proof {
                    if has_key(s0, ip@) {
                        assert(is_at(s0, ip@, spot(s0, ip@)));
                        assert(is_at(e0, ip@, spot(s0, ip@)));
                    }
                }
                self.details.insert(ip.to_owned(), Detail { country, crawler, count: n });
                assert(detail_views(self.details.entries()) == s0.push(
                    (ip@, (country@, crawler@, n as nat)),
                ));
            },
        }
    }

    /// The known addresses, the one with the most requests first.
    pub fn known_ips(&self) -> (r: Vec<KnownIpEntry>)
        requires
            self.wf(),
        ensures
            known_ip_views(r@) == sorted(self.state().details, detail_order()),
    {
        let ghost all = self.state().details;
        let mut list: Vec<KnownIpEntry> = Vec::new();
        let mut i: usize = 0;
        let n = self.details.len();
        while i < n
            invariant
                self.details.wf(),
                all == detail_views(self.details.entries()),
                n == all.len(),
                i <= n,
                known_ip_views(list@) == all.take(i as int),
            decreases n - i,
        {
            let ghost list0 = list@;
            let d = self.details.value(i);
            list.push(
                KnownIpEntry {
                    ip: self.details.key(i).clone(),
                    country: d.country.clone(),
                    crawler: d.crawler.clone(),
                    count: d.count,
                },
            );
            assert(known_ip_views(list@) == known_ip_views(list0).push(list@.last()@));
            assert(all.take(i + 1) == all.take(i as int).push(all[i as int]));
            i += 1;
        }
        assert(all.take(i as int) == all);
        let ghost unsorted = list@;
        let r = sort(list);
        proof {
            lemma_sorted_map(
                unsorted,
                rank::<KnownIpEntry>(),
                |e: KnownIpEntry| e@,
                detail_order(),
            );
        }
        r
    }
}

/// What the details of all known addresses say.
pub open spec fn detail_views(s: Seq<(Seq<char>, Detail)>) -> Seq<(Seq<char>, DetailText)> {
    s.map_values(|e: (Seq<char>, Detail)| (e.0, e.1@))
}

proof fn lemma_views_distinct(s: Seq<(Seq<char>, Detail)>)
    requires
        distinct(s),
    ensures
        distinct(detail_views(s)),
{
    let v = detail_views(s);
    assert forall|i: int, j: int| 0 <= i < j < v.len() implies (#[trigger] v[i]).0 != (
    #[trigger] v[j]).0 by {
        assert(s[i].0 != s[j].0);
    }
}

/// All counts of a table, added up.
fn total_of(counts: &Counts) -> (r: u64)
    requires
        counts.wf(),
        count_sum(counts.tally()) <= u64::MAX,
    ensures
        r == count_sum(counts.tally()),
{
    let ghost all = counts.tally();
    let mut r: u64 = 0;
    let mut i: usize = 0;
    let n = counts.len();
    assert(all.take(0) == Seq::<(Seq<char>, nat)>::empty());
    while i < n
        invariant
            counts.wf(),
            all == counts.tally(),
            n == all.len(),
            i <= n,
            count_sum(all) <= u64::MAX,
            r == count_sum(all.take(i as int)),
        decreases n - i,
    {
        proof {
            assert(all.take(i + 1).drop_last() == all.take(i as int));
            assert(all.take(i + 1).last() == all[i as int]);
            lemma_part_sum(all, i + 1);
        }
        r = r + counts.count(i);
        i += 1;
    }
    assert(all.take(i as int) == all);
    r
}

proof fn lemma_part_sum(s: Seq<(Seq<char>, nat)>, n: int)
    requires
        0 <= n <= s.len(),
    ensures
        count_sum(s.take(n)) <= count_sum(s),
    decreases s.len() - n,
{
    if n < s.len() {
        lemma_part_sum(s, n + 1);
        assert(s.take(n + 1).drop_last() == s.take(n));
    } else {
        assert(s.take(n) == s);
    }
}

// ---------------------------------------------------------------------------
// Known addresses
// ---------------------------------------------------------------------------

/// A line of the list of known addresses.
pub struct KnownIpEntry {
    pub ip: String,
    pub country: String,
    pub crawler: String,
    pub count: u64,
}

impl View for KnownIpEntry {
    type V = (Seq<char>, DetailText);

    open spec fn view(&self) -> (Seq<char>, DetailText) {
        (self.ip@, (self.country@, self.crawler@, self.count as nat))
    }
}

/// What the list of known addresses says.
pub open spec fn known_ip_views(s: Seq<KnownIpEntry>) -> Seq<(Seq<char>, DetailText)> {
    s.map_values(|e: KnownIpEntry| e@)
}

/// More requests come first.
pub open spec fn detail_order() -> spec_fn(
    (Seq<char>, DetailText),
    (Seq<char>, DetailText),
) -> bool {
    |a: (Seq<char>, DetailText), b: (Seq<char>, DetailText)| a.1.2 >= b.1.2
}

impl Ranked for KnownIpEntry {
    open spec fn le(self, other: KnownIpEntry) -> bool {
        self.count >= other.count
    }

    proof fn le_total(a: KnownIpEntry, b: KnownIpEntry) {
    }

    proof fn le_transitive(a: KnownIpEntry, b: KnownIpEntry, c: KnownIpEntry) {
    }

    fn is_le(&self, other: &KnownIpEntry) -> (r: bool) {
        self.count >= other.count
    }
}

// ---------------------------------------------------------------------------
// Laws
// ---------------------------------------------------------------------------

/// Different addresses have different numbers.
pub proof fn law_long_injective(a: Address, b: Address)
    requires
        long_of(a) is Some,
        long_of(a) == long_of(b),
    ensures
        a == b,
{
}

/// Counting a row keeps the tables in agreement.
pub proof fn law_tables_agree(
    s: StatsState,
    row: LogRowText,
    datacenter: Option<Seq<char>>,
    known: Option<KnownIpText>,
)
    requires
        balanced(s),
    ensures
        balanced(after_row(s, row, datacenter, known)),
{
    if let Some(name) = datacenter {
        lemma_counted_sum(s.datacenters, name, row.count);
    }
    if let Some(k) = known {
        let country = country_of(k.0);
        let crawler = crawler_of(k.1, row.user_agent);
        lemma_counted_sum(s.countries, country, row.count);
        lemma_counted_sum(s.urls, row.url, row.count);
        lemma_counted_sum(s.crawlers, crawler, row.count);
        lemma_detailed_sum(s.details, row.ip, country, crawler, row.count);
    }
}

/// A row whose address is in no data centre and not in the directory only adds to the requests.
pub proof fn law_unknown_only_totalled(s: StatsState, row: LogRowText)
    ensures
        after_row(s, row, None, None) == (StatsState { total: s.total + row.count, ..s }),
{
}

/// What the report says of a known address stays what it was when the address first came.
pub proof fn law_first_detail_stays(
    s: Seq<(Seq<char>, DetailText)>,
    ip: Seq<char>,
    country: Seq<char>,
    crawler: Seq<char>,
    n: nat,
    i: int,
)
    requires
        0 <= i < s.len(),
    ensures
        detailed(s, ip, country, crawler, n)[i].0 == s[i].0,
        detailed(s, ip, country, crawler, n)[i].1.0 == s[i].1.0,
        detailed(s, ip, country, crawler, n)[i].1.1 == s[i].1.1,
        detailed(s, ip, country, crawler, n)[i].1.2 >= s[i].1.2,
{
    if has_key(s, ip) {
        assert(is_at(s, ip, spot(s, ip)));
    }
}

/// The number of an address has its four bytes for digits, the first the highest: addresses are
/// numbered in their order, from 0 on.
pub proof fn law_long_in_order(a: u8, b: u8, c: u8, d: u8)
    ensures
        long_of(Address::V4(a, b, c, d)) == Some(
            (a * 0x100_0000 + b * 0x1_0000 + c * 0x100 + d) as nat,
        ),
        d < 255 ==> long_of(Address::V4(a, b, c, (d + 1) as u8)) == Some(
            (long_of(Address::V4(a, b, c, d))->0 + 1) as nat,
        ),
        c < 255 ==> long_of(Address::V4(a, b, (c + 1) as u8, 0)) == Some(
            (long_of(Address::V4(a, b, c, 255))->0 + 1) as nat,
        ),
        b < 255 ==> long_of(Address::V4(a, (b + 1) as u8, 0, 0)) == Some(
            (long_of(Address::V4(a, b, 255, 255))->0 + 1) as nat,
        ),
        a < 255 ==> long_of(Address::V4((a + 1) as u8, 0, 0, 0)) == Some(
            (long_of(Address::V4(a, 255, 255, 255))->0 + 1) as nat,
        ),
        long_of(Address::V4(0, 0, 0, 0)) == Some(0nat),
        long_of(Address::V6) is None,
{
}

/// A crawler goes by the name that the directory has for it. Without one it is told from the user
/// agent: by the name of the one search engine wherever that stands, else by that of the other, else
/// it is not told.
pub proof fn law_crawlers_named(
    name: Seq<char>,
    agent: Seq<char>,
    a: Seq<char>,
    b: Seq<char>,
)
    ensures
        crawler_of(Some(name), agent) == name,
        crawler_of(None, a + "Googlebot"@ + b) == "Googlebot (Est.)"@,
        !has_text(a + "bingbot"@ + b, "Googlebot"@) ==> crawler_of(None, a + "bingbot"@ + b)
            == "Bingbot (Est.)"@,
        !has_text(agent, "Googlebot"@) && !has_text(agent, "bingbot"@) ==> crawler_of(None, agent)
            == "Unclassified Bot"@,
        country_of(Some(name)) == name,
        country_of(None) == "Unknown/Private"@,
{
    law_text_found(a, "Googlebot"@, b);
    law_text_found(a, "bingbot"@, b);
}

/// A row adds its requests to all requests, to its data centre where it has one, and, where its
/// address is known, to its country, its path and its crawler, and to nothing else.
pub proof fn law_row_counted(
    s: StatsState,
    row: LogRowText,
    datacenter: Option<Seq<char>>,
    known: Option<KnownIpText>,
    key: Seq<char>,
)
    requires
        distinct(s.datacenters),
        distinct(s.countries),
        distinct(s.urls),
        distinct(s.crawlers),
    ensures
        ({
            let r = after_row(s, row, datacenter, known);
            &&& r.total == s.total + row.count
            &&& count_of(r.datacenters, key) == count_of(s.datacenters, key) + if datacenter
                == Some(key) {
                row.count
            } else {
                0
            }
            &&& count_of(r.countries, key) == count_of(s.countries, key) + if (known matches Some(k)
                && country_of(k.0) == key) {
                row.count
            } else {
                0
            }
            &&& count_of(r.urls, key) == count_of(s.urls, key) + if known is Some && row.url == key {
                row.count
            } else {
                0
            }
            &&& count_of(r.crawlers, key) == count_of(s.crawlers, key) + if (known matches Some(k)
                && crawler_of(k.1, row.user_agent) == key) {
                row.count
            } else {
                0
            }
            &&& distinct(r.datacenters) && distinct(r.countries) && distinct(r.urls) && distinct(
                r.crawlers,
            )
        }),
{
    if let Some(name) = datacenter {
        lemma_counted(s.datacenters, name, row.count, key);
    }
    if let Some(k) = known {
        lemma_counted(s.countries, country_of(k.0), row.count, key);
        lemma_counted(s.urls, row.url, row.count, key);
        lemma_counted(s.crawlers, crawler_of(k.1, row.user_agent), row.count, key);
    }
}

/// The requests that the report has for a known address, 0 where it has none.
pub open spec fn requests_from(s: Seq<(Seq<char>, DetailText)>, ip: Seq<char>) -> nat {
    if has_key(s, ip) {
        s[spot(s, ip)].1.2
    } else {
        0
    }
}

/// A row of a known address adds its requests to that address alone, and a row of any other address
/// leaves the known addresses as they are. An address that is new has the country and the crawler of
/// the row.
pub proof fn law_known_address_counted(
    s: StatsState,
    row: LogRowText,
    datacenter: Option<Seq<char>>,
    known: KnownIpText,
    ip: Seq<char>,
)
    requires
        distinct(s.details),
    ensures
        ({
            let r = after_row(s, row, datacenter, Some(known)).details;
            &&& distinct(r)
            &&& requests_from(r, ip) == requests_from(s.details, ip) + if ip == row.ip {
                row.count
            } else {
                0
            }
            &&& has_key(r, ip) <==> has_key(s.details, ip) || ip == row.ip
            &&& !has_key(s.details, row.ip) ==> r.last() == (
                row.ip,
                (country_of(known.0), crawler_of(known.1, row.user_agent), row.count),
            )
        }),
        after_row(s, row, datacenter, None).details == s.details,
{
    let d = s.details;
    let r = after_row(s, row, datacenter, Some(known)).details;
    let w = if has_key(d, row.ip) {
        spot(d, row.ip)
    } else {
        d.len() as int
    };
    if has_key(d, row.ip) {
        assert(is_at(d, row.ip, w));
    }
    assert(distinct(r)) by {
        assert forall|i: int, j: int| 0 <= i < j < r.len() implies (#[trigger] r[i]).0 != (
        #[trigger] r[j]).0 by {
            if j < d.len() {
                assert(d[i].0 != d[j].0);
            } else {
                assert(!is_at(d, row.ip, i));
            }
        }
    }
    assert(is_at(r, row.ip, w));
    lemma_spot(r, row.ip, w);
    if ip != row.ip {
        if has_key(d, ip) {
            let v = spot(d, ip);
            assert(is_at(d, ip, v));
            assert(is_at(r, ip, v));
            lemma_spot(r, ip, v);
        }
        if has_key(r, ip) {
            let v = spot(r, ip);
            assert(is_at(r, ip, v));
            assert(is_at(d, ip, v));
        }
    }
}

/// The list of known addresses has each of them once, and none ahead of one with more requests.
pub proof fn law_known_addresses_ranked(s: Seq<(Seq<char>, DetailText)>, i: int, j: int)
    requires
        0 <= i < j < s.len(),
    ensures
        sorted(s, detail_order()).to_multiset() == s.to_multiset(),
        sorted(s, detail_order()).len() == s.len(),
        sorted(s, detail_order())[i].1.2 >= sorted(s, detail_order())[j].1.2,
{
    let le = detail_order();
    assert(preorder(le));
    law_sorted_in_order(s, le);
    law_sorted_keeps_values(s, le);
    assert(le(sorted(s, le)[i], sorted(s, le)[j]));
}

} // verus!
